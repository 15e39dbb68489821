//! Deciding expressions exactly: they are turned into clauses, and a solver looks for a
//! model.

use crate::bitblast::{
    bit_at, bit_result, compared, lemma_number_bound, lemma_number_injective, number,
    signed_number, within, wrapped, Cnf, MAX_WIDTH,
};
use crate::expr::{
    bin, folded, negation, same, truth, width, width_of, BvOp, CmpOp, Ex, Expr, Symbol,
};
use crate::ir::BitVector;
use crate::sat::{
    clause_true, clause_views, lit_true, satisfies, searched, small_formulas_are_decided,
    some_open, unit_refuted, unsatisfiable, Lit, SatResult, Solver, DEFAULT_BUDGET,
};
use vstd::arithmetic::power2::{lemma2_to64, lemma_pow2_pos, lemma_pow2_unfold, pow2};
use vstd::prelude::*;

verus! {

// ---- meaning ----

/// Values of variables of given widths.
pub type Valuation = spec_fn(Symbol, u32) -> nat;

/// A number of `w` bits, read as a signed one.
pub open spec fn as_signed(x: int, w: nat) -> int {
    if w > 0 && x >= pow2((w - 1) as nat) {
        x - pow2(w)
    } else {
        x
    }
}

/// Bit `k` of a number.
pub open spec fn bit_of(x: nat, k: nat) -> bool {
    (x / pow2(k)) % 2 == 1
}

/// The number with the given bits below `w`.
pub open spec fn with_bits(w: nat, f: spec_fn(nat) -> bool) -> nat
    decreases w,
{
    if w == 0 {
        0
    } else {
        with_bits((w - 1) as nat, f) + if f((w - 1) as nat) {
            pow2((w - 1) as nat)
        } else {
            0
        }
    }
}

/// The distance of a number from zero.
pub open spec fn magnitude(x: int) -> int {
    if x < 0 {
        -x
    } else {
        x
    }
}

/// The quotient of two numbers, rounded towards zero.
pub open spec fn quotient(x: int, y: int) -> int {
    let q = magnitude(x) / magnitude(y);
    if (x < 0) == (y < 0) {
        q
    } else {
        -q
    }
}

/// The value of an operation on numbers of `w` bits, modulo two to the `w`. A quotient is
/// rounded towards zero, and a remainder has the sign of what is divided. Dividing by zero
/// leaves everything as remainder; the unsigned quotient is then the largest number, the
/// signed one -1, or 1 of a negative number.
pub open spec fn operated(op: BvOp, x: nat, y: nat, w: nat) -> nat {
    match op {
        BvOp::Add => wrapped((x + y) as int, w) as nat,
        BvOp::Sub => wrapped(x - y, w) as nat,
        BvOp::Mul => wrapped((x * y) as int, w) as nat,
        BvOp::And => with_bits(w, |k: nat| bit_result(op, bit_of(x, k), bit_of(y, k))),
        BvOp::Or => with_bits(w, |k: nat| bit_result(op, bit_of(x, k), bit_of(y, k))),
        BvOp::Xor => with_bits(w, |k: nat| bit_result(op, bit_of(x, k), bit_of(y, k))),
        BvOp::Shl => wrapped((x * pow2(y)) as int, w) as nat,
        BvOp::LShr => x / pow2(y),
        BvOp::AShr => wrapped(as_signed(x as int, w) / (pow2(y) as int), w) as nat,
        BvOp::UDiv => if y == 0 {
            wrapped(-1, w) as nat
        } else {
            x / y
        },
        BvOp::URem => if y == 0 {
            x
        } else {
            x % y
        },
        BvOp::SDiv => {
            let s = as_signed(x as int, w);
            let t = as_signed(y as int, w);
            if t != 0 {
                wrapped(quotient(s, t), w) as nat
            } else if s < 0 {
                wrapped(1, w) as nat
            } else {
                wrapped(-1, w) as nat
            }
        },
        BvOp::SRem => {
            let s = as_signed(x as int, w);
            let t = as_signed(y as int, w);
            if t != 0 {
                wrapped(s - t * quotient(s, t), w) as nat
            } else {
                x
            }
        },
    }
}

/// A truth value as a number.
pub open spec fn truth_value(b: bool) -> nat {
    if b {
        1
    } else {
        0
    }
}

/// The value of an expression. A truth value is 1 or 0.
pub open spec fn value(e: Ex, v: Valuation) -> nat
    decreases e,
{
    match *e {
        Expr::Sym { name, width } => wrapped(v(name, width) as int, width as nat) as nat,
        Expr::Const(b) => b.bits as nat,
        Expr::Bool(b) => truth_value(b),
        Expr::Not(a) => truth_value(value(a, v) == 0),
        Expr::And(a, b) => truth_value(value(a, v) != 0 && value(b, v) != 0),
        Expr::Or(a, b) => truth_value(value(a, v) != 0 || value(b, v) != 0),
        Expr::Bin { op, a, b } => operated(op, value(a, v), value(b, v), width_of(a) as nat),
        Expr::Rel { op, a, b } => {
            let w = width_of(a) as nat;
            let x = value(a, v) as int;
            let y = value(b, v) as int;
            truth_value(compared(op, x, y, as_signed(x, w), as_signed(y, w)))
        },
        Expr::Ite { c, t, e } => if value(c, v) != 0 {
            value(t, v)
        } else {
            value(e, v)
        },
        Expr::Zext(a, _) => value(a, v),
    }
}

/// An operation with a circuit.
pub open spec fn has_circuit(op: BvOp) -> bool {
    op is Add || op is Sub || op is Mul || op is And || op is Or || op is Xor
}

/// A shift.
pub open spec fn is_shift(op: BvOp) -> bool {
    op is Shl || op is LShr || op is AShr
}

/// A width with circuits.
pub open spec fn narrow(w: u32) -> bool {
    0 < w <= MAX_WIDTH
}

/// The expression is well typed, of widths and operations with circuits; shifts are by
/// constants.
pub open spec fn blastable(e: Ex) -> bool
    decreases e,
{
    match *e {
        Expr::Sym { width, .. } => narrow(width),
        Expr::Const(b) => narrow(b.width) && b.bits < pow2(b.width as nat),
        Expr::Bool(_) => true,
        Expr::Not(a) => blastable(a) && width_of(a) == 1,
        Expr::And(a, b) => blastable(a) && blastable(b) && width_of(a) == 1 && width_of(b) == 1,
        Expr::Or(a, b) => blastable(a) && blastable(b) && width_of(a) == 1 && width_of(b) == 1,
        Expr::Bin { op, a, b } => blastable(a) && blastable(b) && width_of(a) == width_of(b)
            && (has_circuit(op) || (is_shift(op) && *b is Const)),
        Expr::Rel { a, b, .. } => blastable(a) && blastable(b) && width_of(a) == width_of(b),
        Expr::Ite { c, t, e } => blastable(c) && blastable(t) && blastable(e) && width_of(c) == 1
            && width_of(t) == width_of(e),
        Expr::Zext(a, w) => blastable(a) && width_of(a) <= w && narrow(w),
    }
}

/// An expression is true.
pub open spec fn holds(e: Ex, v: Valuation) -> bool {
    value(e, v) != 0
}

/// The premises imply the goal, whatever the values of variables.
pub open spec fn entails(premises: Seq<Ex>, goal: Ex) -> bool {
    forall|v: Valuation|
        (forall|i: int| 0 <= i < premises.len() ==> holds(#[trigger] premises[i], v)) ==> #[trigger] holds(
            goal,
            v,
        )
}

// ---- numbers ----

proof fn lemma_number_single(m: Seq<bool>, l: Lit)
    ensures
        number(m, seq![l]) == truth_value(lit_true(m, l)),
{
    lemma2_to64();
    assert(seq![l].drop_last() =~= Seq::<Lit>::empty());
    assert(number(m, Seq::<Lit>::empty()) == 0);
}

proof fn lemma_number_prefix(m: Seq<bool>, x: Seq<bool>, bits: Seq<Lit>, n: int)
    requires
        within(bits, n),
        0 <= n <= m.len(),
        n <= x.len(),
        forall|i: int| 0 <= i < n ==> m[i] == x[i],
    ensures
        number(m, bits) == number(x, bits),
    decreases bits.len(),
{
    if bits.len() > 0 {
        assert(within(bits.drop_last(), n)) by {
            assert forall|k: int| 0 <= k < bits.len() - 1 implies (#[trigger] bits.drop_last()[k]).var
                < n by {
                assert(bits[k].var < n);
            }
        }
        lemma_number_prefix(m, x, bits.drop_last(), n);
        assert(bits[bits.len() - 1].var < n);
    }
}

proof fn lemma_signed_number(m: Seq<bool>, bits: Seq<Lit>)
    requires
        bits.len() > 0,
    ensures
        signed_number(m, bits) == as_signed(number(m, bits) as int, bits.len()),
{
    lemma_number_bound(m, bits.drop_last());
    lemma_pow2_unfold(bits.len());
}

proof fn lemma_number_zeros(m: Seq<bool>, bits: Seq<Lit>, more: Seq<Lit>)
    requires
        forall|k: int| 0 <= k < more.len() ==> !lit_true(m, #[trigger] more[k]),
    ensures
        number(m, bits + more) == number(m, bits),
    decreases more.len(),
{
    if more.len() == 0 {
        assert(bits + more =~= bits);
    } else {
        lemma_number_zeros(m, bits, more.drop_last());
        assert((bits + more).drop_last() =~= bits + more.drop_last());
        assert((bits + more).last() == more[more.len() - 1]);
    }
}

/// The bits of the number that literals spell are those of the literals.
proof fn lemma_number_bits(m: Seq<bool>, bits: Seq<Lit>, k: nat)
    requires
        k < bits.len(),
    ensures
        bit_of(number(m, bits), k) == lit_true(m, bits[k as int]),
    decreases bits.len(),
{
    let n = (bits.len() - 1) as nat;
    let low = number(m, bits.drop_last());
    lemma_number_bound(m, bits.drop_last());
    lemma_pow2_pos(k);
    lemma_pow2_pos(n);
    if k == n {
        let q = if lit_true(m, bits.last()) {
            1int
        } else {
            0int
        };
        assert(number(m, bits) == q * pow2(n) + low) by (nonlinear_arith)
            requires
                number(m, bits) == low + if q == 1 {
                    pow2(n)
                } else {
                    0
                },
                q == 0 || q == 1,
        ;
        vstd::arithmetic::div_mod::lemma_fundamental_div_mod_converse(
            number(m, bits) as int,
            pow2(n) as int,
            q,
            low as int,
        );
    } else {
        lemma_number_bits(m, bits.drop_last(), k);
        let d = (n - k) as nat;
        vstd::arithmetic::power2::lemma_pow2_adds(k, d);
        lemma_pow2_unfold(d);
        let h = pow2((d - 1) as nat) as int;
        let p = pow2(k) as int;
        let x = number(m, bits) as int;
        if lit_true(m, bits.last()) {
            let q = low as int / p;
            let r = low as int % p;
            vstd::arithmetic::div_mod::lemma_fundamental_div_mod(low as int, p);
            assert(x == (q + 2 * h) * p + r) by (nonlinear_arith)
                requires
                    x == low + pow2(n),
                    low == p * q + r,
                    pow2(n) == p * pow2(d),
                    pow2(d) == 2 * h,
            ;
            vstd::arithmetic::div_mod::lemma_fundamental_div_mod_converse(x, p, q + 2 * h, r);
        }
    }
}

// ---- the encoder ----

/// A formula is not extended beyond this many variables.
pub const MAX_VARS: usize = 0x3fff_ffff;

/// The bits of a variable.
pub struct SymBits {
    pub name: Symbol,
    pub width: u32,
    pub bits: Vec<Lit>,
}

/// Expressions under translation: a formula, and the bits of the variables seen so far.
pub struct Blaster {
    pub cnf: Cnf,
    pub syms: Vec<SymBits>,
}

/// An assignment gives the variables the values of a valuation.
pub open spec fn agrees(syms: Seq<SymBits>, m: Seq<bool>, v: Valuation) -> bool {
    forall|i: int|
        0 <= i < syms.len() ==> number(m, (#[trigger] syms[i]).bits@) == wrapped(
            v(syms[i].name, syms[i].width) as int,
            syms[i].width as nat,
        )
}

impl Blaster {
    /// The bits of variables are as many as their widths, and each variable occurs once.
    pub open spec fn wf(&self) -> bool {
        &&& self.cnf.wf()
        &&& forall|i: int|
            0 <= i < self.syms@.len() ==> narrow((#[trigger] self.syms@[i]).width)
                && self.syms@[i].bits@.len() == self.syms@[i].width && within(
                self.syms@[i].bits@,
                self.cnf.num_vars as int,
            )
        &&& forall|i: int, j: int|
            0 <= i < j < self.syms@.len() ==> self.syms@[i].name != self.syms@[j].name
                || self.syms@[i].width != self.syms@[j].width
    }

    /// An assignment of the formula is a model that gives the variables the values of a
    /// valuation.
    pub open spec fn realizes(&self, m: Seq<bool>, v: Valuation) -> bool {
        m.len() == self.cnf.num_vars && self.cnf.models(m) && agrees(self.syms@, m, v)
    }

    /// The variables can take the values of a valuation.
    pub open spec fn admits(&self, v: Valuation) -> bool {
        exists|m: Seq<bool>| #[trigger] self.realizes(m, v)
    }

    /// The variables can take any values.
    pub open spec fn complete(&self) -> bool {
        forall|v: Valuation| #[trigger] self.admits(v)
    }

    /// The literals spell the value of an expression in every model.
    pub open spec fn means(&self, bits: Seq<Lit>, e: Ex) -> bool {
        forall|m: Seq<bool>, v: Valuation|
            #[trigger] self.cnf.models(m) && #[trigger] agrees(self.syms@, m, v) ==> number(m, bits)
                == value(e, v)
    }

    /// The formula grew out of another, and the variables seen before have their bits.
    pub open spec fn extends(&self, o: &Blaster) -> bool {
        &&& self.cnf.grew(&o.cnf)
        &&& o.syms@.len() <= self.syms@.len()
        &&& o.syms@ == self.syms@.take(o.syms@.len() as int)
    }

    proof fn lemma_extends_refl(&self)
        ensures
            self.extends(self),
    {
        self.cnf.lemma_grew_refl();
        assert(self.syms@.take(self.syms@.len() as int) =~= self.syms@);
    }

    proof fn lemma_extends_trans(&self, b: &Blaster, a: &Blaster)
        requires
            self.extends(b),
            b.extends(a),
        ensures
            self.extends(a),
    {
        self.cnf.lemma_grew_trans(&b.cnf, &a.cnf);
        assert(a.syms@ =~= self.syms@.take(a.syms@.len() as int)) by {
            assert forall|i: int| 0 <= i < a.syms@.len() implies a.syms@[i] == self.syms@[i] by {
                assert(a.syms@[i] == b.syms@.take(a.syms@.len() as int)[i]);
                assert(b.syms@[i] == self.syms@.take(b.syms@.len() as int)[i]);
            }
        }
    }

    /// What literals mean is kept.
    proof fn lemma_means_kept(&self, o: &Blaster, bits: Seq<Lit>, e: Ex)
        requires
            self.extends(o),
            o.means(bits, e),
        ensures
            self.means(bits, e),
    {
        assert forall|m: Seq<bool>, v: Valuation|
            #[trigger] self.cnf.models(m) && #[trigger] agrees(self.syms@, m, v) implies number(
            m,
            bits,
        ) == value(e, v) by {
            self.cnf.lemma_grew_models(&o.cnf, m);
            assert(agrees(o.syms@, m, v)) by {
                assert forall|i: int| 0 <= i < o.syms@.len() implies number(
                    m,
                    (#[trigger] o.syms@[i]).bits@,
                ) == wrapped(
                    v(o.syms@[i].name, o.syms@[i].width) as int,
                    o.syms@[i].width as nat,
                ) by {
                    assert(o.syms@[i] == self.syms@.take(o.syms@.len() as int)[i]);
                    assert(o.syms@[i] == self.syms@[i]);
                }
            }
        }
    }

    /// Gates keep the encoder well formed and complete.
    proof fn lemma_grown(&self, o: &Blaster)
        requires
            o.wf(),
            o.complete(),
            self.syms@ == o.syms@,
            self.cnf.wf(),
            self.cnf.grew(&o.cnf),
        ensures
            self.wf(),
            self.complete(),
            self.extends(o),
    {
        assert(self.syms@.take(o.syms@.len() as int) =~= o.syms@);
        assert forall|i: int| 0 <= i < self.syms@.len() implies narrow(
            (#[trigger] self.syms@[i]).width,
        ) && self.syms@[i].bits@.len() == self.syms@[i].width && within(
            self.syms@[i].bits@,
            self.cnf.num_vars as int,
        ) by {
            assert(within(o.syms@[i].bits@, o.cnf.num_vars as int));
        }
        assert forall|v: Valuation| #[trigger] self.admits(v) by {
            assert(o.admits(v));
            let m = choose|m: Seq<bool>| #[trigger] o.realizes(m, v);
            assert(o.cnf.models(m));
            let x = choose|x: Seq<bool>|
                x.len() == self.cnf.num_vars && x.take(o.cnf.num_vars as int) == m
                    && #[trigger] self.cnf.models(x);
            assert forall|i: int| 0 <= i < self.syms@.len() implies number(
                x,
                (#[trigger] self.syms@[i]).bits@,
            ) == wrapped(
                v(self.syms@[i].name, self.syms@[i].width) as int,
                self.syms@[i].width as nat,
            ) by {
                assert(number(m, o.syms@[i].bits@) == wrapped(
                    v(o.syms@[i].name, o.syms@[i].width) as int,
                    o.syms@[i].width as nat,
                ));
                assert(within(o.syms@[i].bits@, o.cnf.num_vars as int));
                assert forall|k: int| 0 <= k < o.cnf.num_vars implies m[k] == x[k] by {
                    assert(x.take(o.cnf.num_vars as int)[k] == x[k]);
                }
                lemma_number_prefix(m, x, o.syms@[i].bits@, o.cnf.num_vars as int);
            }
            assert(self.realizes(x, v));
        }
    }

    /// An encoder that has seen nothing.
    pub fn new() -> (b: Blaster)
        ensures
            b.wf(),
            b.complete(),
            b.cnf.num_vars == 0,
            b.syms@.len() == 0,
    {
        let b = Blaster { cnf: Cnf::default(), syms: Vec::new() };
        proof {
            assert forall|v: Valuation| #[trigger] b.admits(v) by {
                let m = Seq::<bool>::empty();
                assert(clause_views(b.cnf.clauses@) =~= Seq::<Seq<Lit>>::empty());
                assert(b.realizes(m, v));
            }
        }
        b
    }
}

/// The bits of a number below two to the `w`, least significant first.
spec fn spelled(n: nat, w: nat) -> Seq<bool>
    decreases w,
{
    if w == 0 {
        Seq::empty()
    } else {
        let h = pow2((w - 1) as nat);
        if n >= h {
            spelled((n - h) as nat, (w - 1) as nat).push(true)
        } else {
            spelled(n, (w - 1) as nat).push(false)
        }
    }
}

proof fn lemma_spelled(m: Seq<bool>, base: int, n: nat, w: nat, bits: Seq<Lit>)
    requires
        n < pow2(w),
        bits.len() == w,
        0 <= base,
        base + w <= u32::MAX,
        m.len() >= base + w,
        forall|k: int|
            0 <= k < w ==> #[trigger] bits[k] == (Lit { var: (base + k) as u32, neg: false }),
        forall|k: int| 0 <= k < w ==> m[base + k] == #[trigger] spelled(n, w)[k],
    ensures
        spelled(n, w).len() == w,
        number(m, bits) == n,
    decreases w,
{
    if w == 0 {
        lemma2_to64();
    } else {
        let h = pow2((w - 1) as nat);
        lemma_pow2_unfold(w);
        let low = if n >= h {
            (n - h) as nat
        } else {
            n
        };
        let s = spelled(low, (w - 1) as nat);
        lemma_spelled_len(low, (w - 1) as nat);
        assert forall|k: int| 0 <= k < w - 1 implies #[trigger] bits.drop_last()[k] == (Lit {
            var: (base + k) as u32,
            neg: false,
        }) by {
            assert(bits[k] == (Lit { var: (base + k) as u32, neg: false }));
        }
        assert forall|k: int| 0 <= k < w - 1 implies m[base + k] == #[trigger] s[k] by {
            assert(spelled(n, w)[k] == s[k]);
        }
        lemma_spelled(m, base, low, (w - 1) as nat, bits.drop_last());
        assert(bits[w - 1] == (Lit { var: (base + (w - 1)) as u32, neg: false }));
        assert(spelled(n, w)[w - 1] == (n >= h));
        assert(m[base + (w - 1)] == spelled(n, w)[w - 1]);
    }
}

proof fn lemma_spelled_len(n: nat, w: nat)
    ensures
        spelled(n, w).len() == w,
    decreases w,
{
    if w > 0 {
        let h = pow2((w - 1) as nat);
        if n >= h {
            lemma_spelled_len((n - h) as nat, (w - 1) as nat);
        } else {
            lemma_spelled_len(n, (w - 1) as nat);
        }
    }
}

/// Clauses over the first variables hold under a longer assignment too.
proof fn lemma_longer(c: &Cnf, m: Seq<bool>, x: Seq<bool>)
    requires
        c.wf(),
        m.len() == c.num_vars,
        c.models(m),
        x.len() >= m.len(),
        forall|k: int| 0 <= k < m.len() ==> m[k] == x[k],
    ensures
        satisfies(x, clause_views(c.clauses@)),
{
    let cs = clause_views(c.clauses@);
    assert forall|i: int| 0 <= i < cs.len() implies clause_true(x, #[trigger] cs[i]) by {
        assert(clause_true(m, cs[i]));
        let l = choose|l: Lit| #[trigger] cs[i].contains(l) && lit_true(m, l);
        let k = choose|k: int| 0 <= k < cs[i].len() && cs[i][k] == l;
        assert(within(c.clauses@[i]@, c.num_vars as int));
        assert(c.clauses@[i]@[k].var < c.num_vars);
        assert(cs[i].contains(l) && lit_true(x, l));
    }
}

impl Blaster {
    fn find_symbol(&self, name: Symbol, w: u32) -> (r: Option<usize>)
        ensures
            match r {
                Some(i) => i < self.syms@.len() && self.syms@[i as int].name == name
                    && self.syms@[i as int].width == w,
                None => forall|i: int|
                    0 <= i < self.syms@.len() ==> (#[trigger] self.syms@[i]).name != name
                        || self.syms@[i].width != w,
            },
    {
        let mut i: usize = 0;
        while i < self.syms.len()
            invariant
                i <= self.syms@.len(),
                forall|k: int|
                    0 <= k < i ==> (#[trigger] self.syms@[k]).name != name || self.syms@[k].width
                        != w,
            decreases self.syms@.len() - i,
        {
            if self.syms[i].name == name && self.syms[i].width == w {
                return Some(i);
            }
            i += 1;
        }
        None
    }

    /// The bits of a variable.
    fn symbol(&mut self, name: Symbol, w: u32) -> (bits: Vec<Lit>)
        requires
            old(self).wf(),
            old(self).complete(),
            old(self).cnf.num_vars <= MAX_VARS,
            narrow(w),
        ensures
            final(self).wf(),
            final(self).complete(),
            final(self).extends(old(self)),
            final(self).cnf.num_vars <= old(self).cnf.num_vars + w,
            bits@.len() == w,
            within(bits@, final(self).cnf.num_vars as int),
            forall|m: Seq<bool>, v: Valuation| #[trigger]
                agrees(final(self).syms@, m, v) ==> number(m, bits@) == wrapped(
                    v(name, w) as int,
                    w as nat,
                ),
    {
        proof {
            self.lemma_extends_refl();
        }
        if let Some(i) = self.find_symbol(name, w) {
            let bits = copy_bits(&self.syms[i].bits);
            assert forall|m: Seq<bool>, v: Valuation| #[trigger]
                agrees(self.syms@, m, v) implies number(m, bits@) == wrapped(
                v(name, w) as int,
                w as nat,
            ) by {
                assert(number(m, self.syms@[i as int].bits@) == wrapped(
                    v(self.syms@[i as int].name, self.syms@[i as int].width) as int,
                    self.syms@[i as int].width as nat,
                ));
            }
            return bits;
        }
        let bits = self.cnf.fresh_bits(w as usize);
        let kept = copy_bits(&bits);
        self.syms.push(SymBits { name, width: w, bits: kept });
        proof {
            let o = *old(self);
            let n = o.cnf.num_vars as int;
            assert(within(bits@, self.cnf.num_vars as int));
            assert forall|i: int| 0 <= i < self.syms@.len() implies narrow(
                (#[trigger] self.syms@[i]).width,
            ) && self.syms@[i].bits@.len() == self.syms@[i].width && within(
                self.syms@[i].bits@,
                self.cnf.num_vars as int,
            ) by {
                if i < o.syms@.len() {
                    assert(self.syms@[i] == o.syms@[i]);
                    assert(within(o.syms@[i].bits@, n));
                }
            }
            assert forall|i: int, j: int| 0 <= i < j < self.syms@.len() implies self.syms@[i].name
                != self.syms@[j].name || self.syms@[i].width != self.syms@[j].width by {
                if j < o.syms@.len() {
                    assert(self.syms@[j] == o.syms@[j]);
                }
                assert(self.syms@[i] == o.syms@[i]);
            }
            assert forall|m: Seq<bool>| m.len() == n && #[trigger] o.cnf.models(m) implies exists|
                x: Seq<bool>,
            |
                x.len() == self.cnf.num_vars && x.take(n) == m && #[trigger] self.cnf.models(x) by {
                let x = m + spelled(0, w as nat);
                lemma_spelled_len(0, w as nat);
                assert(x.take(n) =~= m);
                lemma_longer(&o.cnf, m, x);
                assert(self.cnf.models(x));
            }
            assert(self.cnf.grew(&o.cnf));
            assert(self.syms@.take(o.syms@.len() as int) =~= o.syms@);
            assert forall|v: Valuation| #[trigger] self.admits(v) by {
                assert(o.admits(v));
                let m = choose|m: Seq<bool>| #[trigger] o.realizes(m, v);
                let val = wrapped(v(name, w) as int, w as nat) as nat;
                lemma_pow2_pos(w as nat);
                vstd::arithmetic::div_mod::lemma_mod_bound(
                    v(name, w) as int,
                    pow2(w as nat) as int,
                );
                let x = m + spelled(val, w as nat);
                lemma_spelled_len(val, w as nat);
                lemma_longer(&o.cnf, m, x);
                assert(self.cnf.models(x));
                assert forall|i: int| 0 <= i < self.syms@.len() implies number(
                    x,
                    (#[trigger] self.syms@[i]).bits@,
                ) == wrapped(
                    v(self.syms@[i].name, self.syms@[i].width) as int,
                    self.syms@[i].width as nat,
                ) by {
                    if i < o.syms@.len() {
                        assert(self.syms@[i] == o.syms@[i]);
                        assert(within(o.syms@[i].bits@, n));
                        lemma_number_prefix(m, x, o.syms@[i].bits@, n);
                    } else {
                        assert forall|k: int| 0 <= k < w implies x[n + k] == #[trigger] spelled(
                            val,
                            w as nat,
                        )[k] by {}
                        lemma_spelled(x, n, val, w as nat, bits@);
                    }
                }
                assert(self.realizes(x, v));
            }
            assert forall|m: Seq<bool>, v: Valuation| #[trigger]
                agrees(self.syms@, m, v) implies number(m, bits@) == wrapped(
                v(name, w) as int,
                w as nat,
            ) by {
                let i = o.syms@.len() as int;
                assert(number(m, self.syms@[i].bits@) == wrapped(
                    v(self.syms@[i].name, self.syms@[i].width) as int,
                    self.syms@[i].width as nat,
                ));
            }
        }
        bits
    }
}

fn copy_bits(s: &Vec<Lit>) -> (r: Vec<Lit>)
    ensures
        r@ == s@,
{
    let mut out: Vec<Lit> = Vec::new();
    let mut i: usize = 0;
    while i < s.len()
        invariant
            i <= s@.len(),
            out@ == s@.take(i as int),
        decreases s@.len() - i,
    {
        out.push(s[i]);
        assert(out@ =~= s@.take(i + 1));
        i += 1;
    }
    assert(s@.take(s@.len() as int) =~= s@);
    out
}

proof fn lemma_with_bits(m: Seq<bool>, bits: Seq<Lit>, f: spec_fn(nat) -> bool)
    requires
        forall|k: int| 0 <= k < bits.len() ==> lit_true(m, #[trigger] bits[k]) == f(k as nat),
    ensures
        number(m, bits) == with_bits(bits.len(), f),
    decreases bits.len(),
{
    if bits.len() > 0 {
        let t = bits.drop_last();
        assert forall|k: int| 0 <= k < t.len() implies lit_true(m, #[trigger] t[k]) == f(k as nat) by {
            assert(lit_true(m, bits[k]) == f(k as nat));
        }
        lemma_with_bits(m, t, f);
        assert(lit_true(m, bits[bits.len() - 1]) == f((bits.len() - 1) as nat));
    }
}

proof fn lemma_within_more(bits: Seq<Lit>, n: int, k: int)
    requires
        within(bits, n),
        n <= k,
    ensures
        within(bits, k),
{
    assert forall|i: int| 0 <= i < bits.len() implies (#[trigger] bits[i]).var < k by {
        assert(bits[i].var < n);
    }
}

/// The bits of a constant.
fn const_bits(cnf: &mut Cnf, n: u128, w: u32) -> (bits: Vec<Lit>)
    requires
        old(cnf).wf(),
        old(cnf).num_vars <= MAX_VARS,
        n < pow2(w as nat),
    ensures
        final(cnf).circuit(old(cnf), bits@, 1),
        bits@.len() == w,
        forall|m: Seq<bool>| #[trigger] final(cnf).models(m) ==> number(m, bits@) == n as nat,
{
    let t = cnf.lit_true();
    let f = t.negated();
    let mut bits: Vec<Lit> = Vec::new();
    let mut x: u128 = n;
    let mut i: u32 = 0;
    proof {
        lemma2_to64();
        assert(pow2(0) == 1);
        assert forall|m: Seq<bool>| #[trigger] cnf.models(m) implies number(m, bits@) + x * pow2(
            0,
        ) == n by {}
    }
    while i < w
        invariant
            i <= w,
            cnf.wf(),
            t.var < cnf.num_vars,
            f == (Lit { var: t.var, neg: !t.neg }),
            bits@.len() == i,
            within(bits@, cnf.num_vars as int),
            forall|m: Seq<bool>| #[trigger] cnf.models(m) ==> lit_true(m, t),
            forall|m: Seq<bool>| #[trigger]
                cnf.models(m) ==> number(m, bits@) + x * pow2(i as nat) == n,
            x < pow2((w - i) as nat),
        decreases w - i,
    {
        let ghost before = bits@;
        let ghost p = pow2(i as nat) as int;
        let odd = x % 2 == 1;
        if odd {
            bits.push(t);
        } else {
            bits.push(f);
        }
        let y: u128 = x / 2;
        proof {
            lemma_pow2_unfold((i + 1) as nat);
            lemma_pow2_unfold((w - i) as nat);
            assert(bits@.drop_last() =~= before);
            assert forall|m: Seq<bool>| #[trigger] cnf.models(m) implies number(m, bits@) + y
                * pow2((i + 1) as nat) == n by {
                assert(lit_true(m, t));
                assert(!lit_true(m, f));
                let b = if odd {
                    1int
                } else {
                    0int
                };
                assert(x == 2 * y + b);
                assert(x * p == y * (2 * p) + b * p) by (nonlinear_arith)
                    requires
                        x == 2 * y + b,
                ;
                assert(b * p == if odd {
                    p
                } else {
                    0
                }) by (nonlinear_arith)
                    requires
                        b == if odd {
                            1int
                        } else {
                            0int
                        },
                ;
            }
            assert forall|k: int| 0 <= k < bits@.len() implies (#[trigger] bits@[k]).var
                < cnf.num_vars by {
                if k < before.len() {
                    assert(before[k].var < cnf.num_vars);
                }
            }
        }
        x = y;
        i += 1;
    }
    proof {
        lemma2_to64();
        assert(x == 0);
        assert forall|m: Seq<bool>| #[trigger] cnf.models(m) implies number(m, bits@) == n as nat by {
            assert(x * pow2(i as nat) == 0) by (nonlinear_arith)
                requires
                    x == 0,
            ;
        }
    }
    bits
}

/// A choice of bits.
fn mux_bits(cnf: &mut Cnf, c: Lit, a: &Vec<Lit>, b: &Vec<Lit>) -> (r: Vec<Lit>)
    requires
        old(cnf).wf(),
        old(cnf).num_vars <= MAX_VARS,
        a@.len() == b@.len(),
        a@.len() <= MAX_WIDTH,
        c.var < old(cnf).num_vars,
        within(a@, old(cnf).num_vars as int),
        within(b@, old(cnf).num_vars as int),
    ensures
        final(cnf).circuit(old(cnf), r@, 3 * a@.len()),
        r@.len() == a@.len(),
        forall|m: Seq<bool>| #[trigger]
            final(cnf).models(m) ==> number(m, r@) == if lit_true(m, c) {
                number(m, a@)
            } else {
                number(m, b@)
            },
{
    let mut out: Vec<Lit> = Vec::new();
    let mut i: usize = 0;
    proof {
        cnf.lemma_grew_refl();
    }
    while i < a.len()
        invariant
            i <= a@.len(),
            a@.len() == b@.len(),
            a@.len() <= MAX_WIDTH,
            old(cnf).num_vars <= MAX_VARS,
            c.var < old(cnf).num_vars,
            within(a@, old(cnf).num_vars as int),
            within(b@, old(cnf).num_vars as int),
            cnf.wf(),
            cnf.grew(old(cnf)),
            cnf.num_vars <= old(cnf).num_vars + 3 * i,
            out@.len() == i,
            within(out@, cnf.num_vars as int),
            forall|m: Seq<bool>, k: int|
                #[trigger] cnf.models(m) && 0 <= k < i ==> lit_true(m, #[trigger] out@[k]) == if lit_true(
                    m,
                    c,
                ) {
                    lit_true(m, a@[k])
                } else {
                    lit_true(m, b@[k])
                },
        decreases a@.len() - i,
    {
        let ghost g = *cnf;
        let ghost before = out@;
        assert(a@[i as int].var < old(cnf).num_vars);
        assert(b@[i as int].var < old(cnf).num_vars);
        let l = cnf.mux(c, a[i], b[i]);
        out.push(l);
        proof {
            cnf.lemma_grew_trans(&g, old(cnf));
            assert forall|k: int| 0 <= k < out@.len() implies (#[trigger] out@[k]).var
                < cnf.num_vars by {
                if k < before.len() {
                    assert(before[k].var < g.num_vars);
                }
            }
            assert forall|m: Seq<bool>, k: int|
                #[trigger] cnf.models(m) && 0 <= k < i + 1 implies lit_true(m, #[trigger] out@[k])
                == if lit_true(m, c) {
                lit_true(m, a@[k])
            } else {
                lit_true(m, b@[k])
            } by {
                cnf.lemma_grew_models(&g, m);
                if k < i {
                    assert(out@[k] == before[k]);
                }
            }
        }
        i += 1;
    }
    proof {
        assert forall|m: Seq<bool>| #[trigger] cnf.models(m) implies number(m, out@) == if lit_true(
            m,
            c,
        ) {
            number(m, a@)
        } else {
            number(m, b@)
        } by {
            lemma_number_injective(m, out@, a@);
            lemma_number_injective(m, out@, b@);
            assert forall|k: int| 0 <= k < out@.len() implies lit_true(m, #[trigger] out@[k])
                == if lit_true(m, c) {
                lit_true(m, a@[k])
            } else {
                lit_true(m, b@[k])
            } by {}
        }
    }
    out
}

proof fn lemma_cost(w: nat)
    requires
        w <= MAX_WIDTH,
    ensures
        1 + w * (6 * w + 1) <= 0x8000,
{
    assert(w * (6 * w + 1) <= 64 * 385) by (nonlinear_arith)
        requires
            w <= 64,
    ;
}

/// The number of nodes of an expression.
pub open spec fn nodes(e: Ex) -> nat
    decreases e,
{
    match *e {
        Expr::Sym { .. } => 1,
        Expr::Const(_) => 1,
        Expr::Bool(_) => 1,
        Expr::Not(a) => 1 + nodes(a),
        Expr::And(a, b) => 1 + nodes(a) + nodes(b),
        Expr::Or(a, b) => 1 + nodes(a) + nodes(b),
        Expr::Bin { a, b, .. } => 1 + nodes(a) + nodes(b),
        Expr::Rel { a, b, .. } => 1 + nodes(a) + nodes(b),
        Expr::Ite { c, t, e } => 1 + nodes(c) + nodes(t) + nodes(e),
        Expr::Zext(a, _) => 1 + nodes(a),
    }
}

/// The variables that the circuit of an operation on `w` bits takes, at most.
pub open spec fn gates(op: BvOp, w: nat) -> nat {
    if op is Mul {
        1 + w * (6 * w + 1)
    } else {
        5 * w + 1
    }
}

/// The variables that the translation of an expression takes, at most.
pub open spec fn outlay(e: Ex) -> nat
    decreases e,
{
    match *e {
        Expr::Sym { width, .. } => width as nat,
        Expr::Const(_) => 1,
        Expr::Bool(_) => 1,
        Expr::Not(a) => outlay(a),
        Expr::And(a, b) => 1 + outlay(a) + outlay(b),
        Expr::Or(a, b) => 1 + outlay(a) + outlay(b),
        Expr::Bin { op, a, b } => gates(op, width_of(a) as nat) + outlay(a) + outlay(b),
        Expr::Rel { a, b, .. } => 5 * (width_of(a) as nat) + 5 + outlay(a) + outlay(b),
        Expr::Ite { c, t, e } => 3 * (width_of(t) as nat) + outlay(c) + outlay(t) + outlay(e),
        Expr::Zext(a, _) => 1 + outlay(a),
    }
}

/// The variables that the translation of expressions takes, at most.
pub open spec fn total_outlay(s: Seq<Ex>) -> nat
    decreases s.len(),
{
    if s.len() == 0 {
        0
    } else {
        total_outlay(s.drop_last()) + outlay(s.last())
    }
}

proof fn lemma_width(e: Ex)
    requires
        blastable(e),
    ensures
        narrow(width_of(e)),
    decreases e,
{
    match *e {
        Expr::Bin { a, .. } => {
            lemma_width(a);
        },
        Expr::Ite { t, .. } => {
            lemma_width(t);
        },
        _ => {},
    }
}

impl Blaster {
    /// What the translation of an expression promises.
    pub open spec fn encoded(&self, o: &Blaster, e: Ex, r: Option<Vec<Lit>>) -> bool {
        &&& self.wf()
        &&& self.complete()
        &&& self.extends(o)
        &&& self.cnf.num_vars <= o.cnf.num_vars + outlay(e)
        &&& match r {
            Some(bits) => {
                &&& blastable(e)
                &&& bits@.len() == width_of(e)
                &&& within(bits@, self.cnf.num_vars as int)
                &&& self.means(bits@, e)
            },
            None => !blastable(e) || self.cnf.num_vars > MAX_VARS,
        }
    }

    fn operate(&mut self, op: BvOp, a: &Vec<Lit>, b: &Vec<Lit>) -> (r: Option<Vec<Lit>>)
        requires
            old(self).wf(),
            old(self).complete(),
            old(self).cnf.num_vars <= MAX_VARS,
            a@.len() == b@.len(),
            0 < a@.len() <= MAX_WIDTH,
            within(a@, old(self).cnf.num_vars as int),
            within(b@, old(self).cnf.num_vars as int),
        ensures
            final(self).wf(),
            final(self).complete(),
            final(self).extends(old(self)),
            final(self).cnf.num_vars <= old(self).cnf.num_vars + gates(op, a@.len()),
            r is Some <==> has_circuit(op),
            match r {
                Some(bits) => {
                    &&& bits@.len() == a@.len()
                    &&& within(bits@, final(self).cnf.num_vars as int)
                    &&& forall|m: Seq<bool>| #[trigger]
                        final(self).cnf.models(m) ==> number(m, bits@) == operated(
                            op,
                            number(m, a@),
                            number(m, b@),
                            a@.len(),
                        )
                },
                None => true,
            },
    {
        proof {
            lemma_cost(a@.len());
            self.lemma_extends_refl();
            lemma_pow2_pos(a@.len());
        }
        let r: Vec<Lit> = match op {
            BvOp::Add => self.cnf.add(a.as_slice(), b.as_slice()),
            BvOp::Sub => self.cnf.sub(a.as_slice(), b.as_slice()),
            BvOp::Mul => self.cnf.mul(a.as_slice(), b.as_slice()),
            BvOp::And => self.cnf.bitwise(op, a.as_slice(), b.as_slice()),
            BvOp::Or => self.cnf.bitwise(op, a.as_slice(), b.as_slice()),
            BvOp::Xor => self.cnf.bitwise(op, a.as_slice(), b.as_slice()),
            _ => {
                return None;
            },
        };
        proof {
            self.lemma_grown(old(self));
            assert forall|m: Seq<bool>| #[trigger] self.cnf.models(m) implies number(m, r@)
                == operated(op, number(m, a@), number(m, b@), a@.len()) by {
                let x = number(m, a@);
                let y = number(m, b@);
                if op is And || op is Or || op is Xor {
                    let f = |k: nat| bit_result(op, bit_of(x, k), bit_of(y, k));
                    assert forall|k: int| 0 <= k < r@.len() implies lit_true(m, #[trigger] r@[k])
                        == f(k as nat) by {
                        lemma_number_bits(m, a@, k as nat);
                        lemma_number_bits(m, b@, k as nat);
                    }
                    lemma_with_bits(m, r@, f);
                }
            }
        }
        Some(r)
    }

    /// Translate an expression: its bits, where it is well typed and has circuits, and the
    /// formula does not grow too large.
    pub fn encode(&mut self, e: &Ex) -> (r: Option<Vec<Lit>>)
        requires
            old(self).wf(),
            old(self).complete(),
        ensures
            final(self).encoded(old(self), *e, r),
        decreases nodes(*e), 1int,
    {
        proof {
            self.lemma_extends_refl();
        }
        if self.cnf.num_vars > MAX_VARS {
            return None;
        }
        match &**e {
            Expr::Sym { name, width } => {
                if *width == 0 || *width > MAX_WIDTH {
                    return None;
                }
                let bits = self.symbol(*name, *width);
                Some(bits)
            },
            Expr::Const(b) => self.encode_const(e, b),
            Expr::Bool(b) => {
                let t = self.cnf.lit_true();
                let l = if *b {
                    t
                } else {
                    t.negated()
                };
                let bits = vec![l];
                proof {
                    self.lemma_grown(old(self));
                    assert(bits@ =~= seq![l]);
                    assert forall|m: Seq<bool>, v: Valuation|
                        #[trigger] self.cnf.models(m) && #[trigger] agrees(
                            self.syms@,
                            m,
                            v,
                        ) implies number(m, bits@) == value(*e, v) by {
                        lemma_number_single(m, l);
                    }
                }
                Some(bits)
            },
            Expr::Not(a) => {
                let x = self.encode_bool(a)?;
                let l = x.negated();
                let bits = vec![l];
                proof {
                    assert(bits@ =~= seq![l]);
                    assert forall|m: Seq<bool>, v: Valuation|
                        #[trigger] self.cnf.models(m) && #[trigger] agrees(
                            self.syms@,
                            m,
                            v,
                        ) implies number(m, bits@) == value(*e, v) by {
                        lemma_number_single(m, l);
                        lemma_number_single(m, x);
                    }
                }
                Some(bits)
            },
            Expr::And(a, b) => self.encode_join(e, a, b, true),
            Expr::Or(a, b) => self.encode_join(e, a, b, false),
            Expr::Bin { op, a, b } => self.encode_bin(e, *op, a, b),
            Expr::Rel { op, a, b } => self.encode_rel(e, *op, a, b),
            Expr::Ite { c, t, e: f } => self.encode_ite(e, c, t, f),
            Expr::Zext(a, w) => self.encode_zext(e, a, *w),
        }
    }

    fn encode_const(&mut self, e: &Ex, b: &BitVector) -> (r: Option<Vec<Lit>>)
        requires
            old(self).wf(),
            old(self).complete(),
            old(self).cnf.num_vars <= MAX_VARS,
            **e == Expr::Const(*b),
        ensures
            final(self).encoded(old(self), *e, r),
    {
        proof {
            self.lemma_extends_refl();
        }
        if b.width == 0 || b.width > MAX_WIDTH || !fits_in(b.bits, b.width) {
            return None;
        }
        let bits = const_bits(&mut self.cnf, b.bits, b.width);
        proof {
            self.lemma_grown(old(self));
        }
        Some(bits)
    }

    /// Translate a truth value.
    pub fn encode_bool(&mut self, e: &Ex) -> (r: Option<Lit>)
        requires
            old(self).wf(),
            old(self).complete(),
        ensures
            final(self).wf(),
            final(self).complete(),
            final(self).extends(old(self)),
            final(self).cnf.num_vars <= old(self).cnf.num_vars + outlay(*e),
            match r {
                Some(l) => {
                    &&& blastable(*e)
                    &&& width_of(*e) == 1
                    &&& l.var < final(self).cnf.num_vars
                    &&& final(self).means(seq![l], *e)
                },
                None => !blastable(*e) || width_of(*e) != 1 || final(self).cnf.num_vars > MAX_VARS,
            },
        decreases nodes(*e), 2int,
    {
        if width(e) != 1 {
            proof {
                self.lemma_extends_refl();
            }
            return None;
        }
        match self.encode(e) {
            Some(bits) => {
                assert(bits@ =~= seq![bits@[0]]);
                assert(bits@[0].var < self.cnf.num_vars);
                Some(bits[0])
            },
            None => None,
        }
    }
}

impl Blaster {
    fn encode_join(&mut self, e: &Ex, a: &Ex, b: &Ex, both: bool) -> (r: Option<Vec<Lit>>)
        requires
            old(self).wf(),
            old(self).complete(),
            **e == if both {
                Expr::And(*a, *b)
            } else {
                Expr::Or(*a, *b)
            },
        ensures
            final(self).encoded(old(self), *e, r),
        decreases nodes(*e), 0int,
    {
        let x = self.encode_bool(a)?;
        let ghost g1 = *self;
        let y = match self.encode_bool(b) {
            Some(y) => y,
            None => {
                proof {
                    self.lemma_extends_trans(&g1, old(self));
                }
                return None;
            },
        };
        let ghost g2 = *self;
        proof {
            self.lemma_extends_trans(&g1, old(self));
            self.lemma_means_kept(&g1, seq![x], *a);
        }
        if self.cnf.num_vars > MAX_VARS {
            return None;
        }
        let l = if both {
            self.cnf.and2(x, y)
        } else {
            self.cnf.or2(x, y)
        };
        let bits = vec![l];
        proof {
            self.lemma_grown(&g2);
            self.lemma_extends_trans(&g2, old(self));
            self.lemma_means_kept(&g2, seq![x], *a);
            self.lemma_means_kept(&g2, seq![y], *b);
            assert(bits@ =~= seq![l]);
            assert forall|m: Seq<bool>, v: Valuation|
                #[trigger] self.cnf.models(m) && #[trigger] agrees(self.syms@, m, v) implies number(
                m,
                bits@,
            ) == value(*e, v) by {
                lemma_number_single(m, l);
                lemma_number_single(m, x);
                lemma_number_single(m, y);
            }
        }
        Some(bits)
    }

    /// Translate two expressions of one width.
    fn encode_two(&mut self, a: &Ex, b: &Ex) -> (r: Option<(Vec<Lit>, Vec<Lit>)>)
        requires
            old(self).wf(),
            old(self).complete(),
        ensures
            final(self).wf(),
            final(self).complete(),
            final(self).extends(old(self)),
            final(self).cnf.num_vars <= old(self).cnf.num_vars + outlay(*a) + outlay(*b),
            match r {
                Some((x, y)) => {
                    &&& blastable(*a)
                    &&& blastable(*b)
                    &&& width_of(*a) == width_of(*b)
                    &&& x@.len() == width_of(*a)
                    &&& y@.len() == width_of(*a)
                    &&& within(x@, final(self).cnf.num_vars as int)
                    &&& within(y@, final(self).cnf.num_vars as int)
                    &&& final(self).means(x@, *a)
                    &&& final(self).means(y@, *b)
                    &&& final(self).cnf.num_vars <= MAX_VARS
                },
                None => !blastable(*a) || !blastable(*b) || width_of(*a) != width_of(*b)
                    || final(self).cnf.num_vars > MAX_VARS,
            },
        decreases nodes(*a) + nodes(*b), 3int,
    {
        proof {
            self.lemma_extends_refl();
        }
        if width(a) != width(b) {
            return None;
        }
        let x = self.encode(a)?;
        let ghost g1 = *self;
        let y = match self.encode(b) {
            Some(y) => y,
            None => {
                proof {
                    self.lemma_extends_trans(&g1, old(self));
                }
                return None;
            },
        };
        proof {
            self.lemma_extends_trans(&g1, old(self));
            self.lemma_means_kept(&g1, x@, *a);
            lemma_within_more(x@, g1.cnf.num_vars as int, self.cnf.num_vars as int);
        }
        if self.cnf.num_vars > MAX_VARS {
            return None;
        }
        Some((x, y))
    }

    /// Bits moved by a constant.
    fn shift(&mut self, op: BvOp, a: &Vec<Lit>, y: u128) -> (bits: Vec<Lit>)
        requires
            old(self).wf(),
            old(self).complete(),
            old(self).cnf.num_vars <= MAX_VARS,
            is_shift(op),
            0 < a@.len() <= MAX_WIDTH,
            within(a@, old(self).cnf.num_vars as int),
        ensures
            final(self).wf(),
            final(self).complete(),
            final(self).extends(old(self)),
            final(self).cnf.num_vars <= old(self).cnf.num_vars + 1,
            bits@.len() == a@.len(),
            within(bits@, final(self).cnf.num_vars as int),
            forall|m: Seq<bool>| #[trigger]
                final(self).cnf.models(m) ==> number(m, bits@) == operated(
                    op,
                    number(m, a@),
                    y as nat,
                    a@.len(),
                ),
    {
        let w: usize = a.len();
        let j: usize = if y < w as u128 {
            y as usize
        } else {
            w
        };
        let t = self.cnf.lit_true();
        let z = t.negated();
        let fill = match op {
            BvOp::AShr => a[w - 1],
            _ => z,
        };
        assert(a@[w - 1].var < self.cnf.num_vars);
        let mut bits: Vec<Lit> = Vec::new();
        let mut k: usize = 0;
        while k < w
            invariant
                k <= w,
                w == a@.len(),
                j <= w,
                is_shift(op),
                self.cnf.num_vars >= old(self).cnf.num_vars,
                within(a@, old(self).cnf.num_vars as int),
                z.var < self.cnf.num_vars,
                fill.var < self.cnf.num_vars,
                bits@.len() == k,
                within(bits@, self.cnf.num_vars as int),
                forall|i: int| 0 <= i < k ==> #[trigger] bits@[i] == moved(op, a@, j as int, z, fill, i),
            decreases w - k,
        {
            let ghost before = bits@;
            let l = match op {
                BvOp::Shl => if k < j {
                    z
                } else {
                    a[k - j]
                },
                _ => if k < w - j {
                    a[k + j]
                } else {
                    fill
                },
            };
            proof {
                assert(l.var < self.cnf.num_vars) by {
                    if op is Shl && k >= j {
                        assert(a@[k - j].var < old(self).cnf.num_vars);
                    }
                    if !(op is Shl) && k < w - j {
                        assert(a@[k + j].var < old(self).cnf.num_vars);
                    }
                }
            }
            bits.push(l);
            proof {
                assert forall|i: int| 0 <= i < bits@.len() implies (#[trigger] bits@[i]).var
                    < self.cnf.num_vars by {
                    if i < k {
                        assert(before[i].var < self.cnf.num_vars);
                    }
                }
            }
            k += 1;
        }
        proof {
            self.lemma_grown(old(self));
            assert forall|m: Seq<bool>| #[trigger] self.cnf.models(m) implies number(m, bits@)
                == operated(op, number(m, a@), y as nat, a@.len()) by {
                assert(lit_true(m, t));
                assert(!lit_true(m, z));
                lemma_moved(m, op, a@, bits@, j as int, y as nat, z, fill, t);
            }
        }
        bits
    }

    fn encode_bin(&mut self, e: &Ex, op: BvOp, a: &Ex, b: &Ex) -> (r: Option<Vec<Lit>>)
        requires
            old(self).wf(),
            old(self).complete(),
            **e == (Expr::Bin { op, a: *a, b: *b }),
        ensures
            final(self).encoded(old(self), *e, r),
        decreases nodes(*e), 0int,
    {
        let (x, y) = self.encode_two(a, b)?;
        let ghost g = *self;
        proof {
            lemma_width(*a);
        }
        if let Expr::Const(c) = &**b {
            let power: Option<u128> = match op {
                BvOp::Shl => Some(c.bits),
                BvOp::LShr => Some(c.bits),
                BvOp::AShr => Some(c.bits),
                BvOp::Mul => exponent(c.bits),
                _ => None,
            };
            if let Some(k) = power {
                let by = match op {
                    BvOp::Mul => BvOp::Shl,
                    _ => op,
                };
                let bits = self.shift(by, &x, k);
                proof {
                    self.lemma_extends_trans(&g, old(self));
                    self.lemma_means_kept(&g, x@, *a);
                    assert forall|m: Seq<bool>, v: Valuation|
                        #[trigger] self.cnf.models(m) && #[trigger] agrees(
                            self.syms@,
                            m,
                            v,
                        ) implies number(m, bits@) == value(*e, v) by {
                        assert(number(m, x@) == value(*a, v));
                        assert(value(*b, v) == c.bits as nat);
                    }
                }
                return Some(bits);
            }
        }
        match self.operate(op, &x, &y) {
            Some(bits) => {
                proof {
                    self.lemma_extends_trans(&g, old(self));
                    self.lemma_means_kept(&g, x@, *a);
                    self.lemma_means_kept(&g, y@, *b);
                }
                Some(bits)
            },
            None => {
                proof {
                    self.lemma_extends_trans(&g, old(self));
                }
                None
            },
        }
    }

    fn encode_rel(&mut self, e: &Ex, op: CmpOp, a: &Ex, b: &Ex) -> (r: Option<Vec<Lit>>)
        requires
            old(self).wf(),
            old(self).complete(),
            **e == (Expr::Rel { op, a: *a, b: *b }),
        ensures
            final(self).encoded(old(self), *e, r),
        decreases nodes(*e), 0int,
    {
        let (x, y) = self.encode_two(a, b)?;
        let ghost g = *self;
        proof {
            lemma_width(*a);
        }
        let l = self.cnf.compare(op, x.as_slice(), y.as_slice());
        let bits = vec![l];
        proof {
            self.lemma_grown(&g);
            self.lemma_extends_trans(&g, old(self));
            self.lemma_means_kept(&g, x@, *a);
            self.lemma_means_kept(&g, y@, *b);
            assert(bits@ =~= seq![l]);
            assert forall|m: Seq<bool>, v: Valuation|
                #[trigger] self.cnf.models(m) && #[trigger] agrees(self.syms@, m, v) implies number(
                m,
                bits@,
            ) == value(*e, v) by {
                lemma_number_single(m, l);
                lemma_signed_number(m, x@);
                lemma_signed_number(m, y@);
            }
        }
        Some(bits)
    }

    fn encode_ite(&mut self, e: &Ex, c: &Ex, t: &Ex, f: &Ex) -> (r: Option<Vec<Lit>>)
        requires
            old(self).wf(),
            old(self).complete(),
            **e == (Expr::Ite { c: *c, t: *t, e: *f }),
        ensures
            final(self).encoded(old(self), *e, r),
        decreases nodes(*e), 0int,
    {
        let s = self.encode_bool(c)?;
        let ghost g1 = *self;
        let (x, y) = match self.encode_two(t, f) {
            Some(p) => p,
            None => {
                proof {
                    self.lemma_extends_trans(&g1, old(self));
                }
                return None;
            },
        };
        let ghost g2 = *self;
        proof {
            lemma_width(*t);
        }
        let bits = mux_bits(&mut self.cnf, s, &x, &y);
        proof {
            self.lemma_grown(&g2);
            self.lemma_extends_trans(&g2, &g1);
            self.lemma_extends_trans(&g1, old(self));
            self.lemma_means_kept(&g1, seq![s], *c);
            self.lemma_means_kept(&g2, x@, *t);
            self.lemma_means_kept(&g2, y@, *f);
            assert forall|m: Seq<bool>, v: Valuation|
                #[trigger] self.cnf.models(m) && #[trigger] agrees(self.syms@, m, v) implies number(
                m,
                bits@,
            ) == value(*e, v) by {
                lemma_number_single(m, s);
            }
        }
        Some(bits)
    }

    fn encode_zext(&mut self, e: &Ex, a: &Ex, w: u32) -> (r: Option<Vec<Lit>>)
        requires
            old(self).wf(),
            old(self).complete(),
            **e == Expr::Zext(*a, w),
        ensures
            final(self).encoded(old(self), *e, r),
        decreases nodes(*e), 0int,
    {
        proof {
            self.lemma_extends_refl();
        }
        if width(a) > w || w == 0 || w > MAX_WIDTH {
            return None;
        }
        let x = self.encode(a)?;
        let ghost g = *self;
        if self.cnf.num_vars > MAX_VARS {
            return None;
        }
        let z = self.cnf.lit_false();
        let mut bits = copy_bits(&x);
        let ghost more = Seq::<Lit>::empty();
        let ghost mut tail = more;
        assert(bits@ =~= x@ + tail);
        while bits.len() < w as usize
            invariant
                bits@ == x@ + tail,
                x@.len() <= bits@.len() <= w,
                forall|k: int| 0 <= k < tail.len() ==> #[trigger] tail[k] == z,
            decreases w - bits@.len(),
        {
            bits.push(z);
            proof {
                tail = tail.push(z);
                assert(bits@ =~= x@ + tail);
            }
        }
        proof {
            self.lemma_grown(&g);
            self.lemma_extends_trans(&g, old(self));
            self.lemma_means_kept(&g, x@, *a);
            lemma_within_more(x@, g.cnf.num_vars as int, self.cnf.num_vars as int);
            assert forall|k: int| 0 <= k < bits@.len() implies (#[trigger] bits@[k]).var
                < self.cnf.num_vars by {
                if k < x@.len() {
                    assert(x@[k].var < self.cnf.num_vars);
                } else {
                    assert(bits@[k] == tail[k - x@.len()]);
                }
            }
            assert forall|m: Seq<bool>, v: Valuation|
                #[trigger] self.cnf.models(m) && #[trigger] agrees(self.syms@, m, v) implies number(
                m,
                bits@,
            ) == value(*e, v) by {
                lemma_number_zeros(m, x@, tail);
            }
        }
        Some(bits)
    }
}

/// The literal at a place after bits are moved.
spec fn moved(op: BvOp, a: Seq<Lit>, j: int, z: Lit, fill: Lit, k: int) -> Lit {
    if op is Shl {
        if k < j {
            z
        } else {
            a[k - j]
        }
    } else if k < a.len() - j {
        a[k + j]
    } else {
        fill
    }
}

/// Bits are split at a place.
proof fn lemma_split(m: Seq<bool>, a: Seq<Lit>, j: int)
    requires
        0 <= j <= a.len(),
    ensures
        number(m, a) == number(m, a.take(j)) + number(m, a.subrange(j, a.len() as int)) * pow2(
            j as nat,
        ),
    decreases a.len(),
{
    let hi = a.subrange(j, a.len() as int);
    if j == a.len() {
        assert(a.take(j) =~= a);
        assert(number(m, hi) == 0);
        assert(0 * pow2(j as nat) == 0) by (nonlinear_arith);
    } else {
        let b = a.drop_last();
        lemma_split(m, b, j);
        assert(b.take(j) =~= a.take(j));
        assert(hi.drop_last() =~= b.subrange(j, b.len() as int));
        assert(hi.last() == a.last());
        let n = (a.len() - 1 - j) as nat;
        vstd::arithmetic::power2::lemma_pow2_adds(n, j as nat);
        let x = number(m, hi.drop_last()) as int;
        let p = pow2(j as nat) as int;
        let q = bit_at(m, a.last(), pow2(n)) as int;
        let r = bit_at(m, a.last(), pow2((a.len() - 1) as nat)) as int;
        assert(pow2(n) * p == pow2((a.len() - 1) as nat));
        assert(q * p == r) by {
            if !lit_true(m, a.last()) {
                assert(0 * p == 0) by (nonlinear_arith);
            }
        }
        assert((x + q) * p == x * p + q * p) by (nonlinear_arith);
    }
}

/// Ones above bits.
proof fn lemma_ones(m: Seq<bool>, a: Seq<Lit>, more: Seq<Lit>)
    requires
        forall|k: int| 0 <= k < more.len() ==> lit_true(m, #[trigger] more[k]),
    ensures
        number(m, a + more) == number(m, a) + pow2((a.len() + more.len()) as nat) - pow2(a.len()),
    decreases more.len(),
{
    if more.len() == 0 {
        assert(a + more =~= a);
    } else {
        lemma_ones(m, a, more.drop_last());
        assert((a + more).drop_last() =~= a + more.drop_last());
        assert((a + more).last() == more[more.len() - 1]);
        lemma_pow2_unfold((a.len() + more.len()) as nat);
    }
}

proof fn lemma_moved(
    m: Seq<bool>,
    op: BvOp,
    a: Seq<Lit>,
    bits: Seq<Lit>,
    j: int,
    y: nat,
    z: Lit,
    fill: Lit,
    t: Lit,
)
    requires
        is_shift(op),
        0 < a.len(),
        bits.len() == a.len(),
        j == if y < a.len() {
            y as int
        } else {
            a.len() as int
        },
        !lit_true(m, z),
        lit_true(m, t),
        fill == if op is AShr {
            a[a.len() - 1]
        } else {
            z
        },
        forall|i: int| 0 <= i < a.len() ==> #[trigger] bits[i] == moved(op, a, j, z, fill, i),
    ensures
        number(m, bits) == operated(op, number(m, a), y, a.len()),
{
    let w = a.len();
    let x = number(m, a);
    lemma_number_bound(m, a);
    lemma_pow2_pos(w);
    lemma_pow2_pos(y);
    lemma_pow2_pos(j as nat);
    if y >= w {
        vstd::arithmetic::power2::lemma_pow2_adds(w, (y - w) as nat);
        lemma_pow2_pos((y - w) as nat);
    }
    if op is Shl {
        assert forall|k: int| 0 <= k < bits.len() implies lit_true(m, #[trigger] bits[k]) == (k >= j
            && lit_true(m, a[k - j]) && lit_true(m, t)) by {
            assert(bits[k] == moved(op, a, j, z, fill, k));
        }
        crate::bitblast::lemma_shifted(m, a, bits, t, j);
        if y >= w {
            let q = pow2((y - w) as nat) as int;
            let p = pow2(w) as int;
            assert(x * pow2(y) == (x * q) * p) by (nonlinear_arith)
                requires
                    pow2(y) == p * q,
            ;
            vstd::arithmetic::div_mod::lemma_mod_multiples_basic(x * q, p);
            vstd::arithmetic::div_mod::lemma_mod_multiples_basic(x as int, p);
        }
    } else {
        let hi = a.subrange(j, w as int);
        let more = bits.subrange(w - j, w as int);
        assert(bits =~= hi + more) by {
            assert forall|k: int| 0 <= k < w implies bits[k] == (hi + more)[k] by {
                assert(bits[k] == moved(op, a, j, z, fill, k));
            }
        }
        assert forall|k: int| 0 <= k < more.len() implies #[trigger] more[k] == fill by {
            assert(more[k] == bits[w - j + k]);
            assert(bits[w - j + k] == moved(op, a, j, z, fill, w - j + k));
        }
        lemma_split(m, a, j);
        let low = number(m, a.take(j)) as int;
        let high = number(m, hi) as int;
        lemma_number_bound(m, a.take(j));
        lemma_number_bound(m, hi);
        let p = pow2(j as nat) as int;
        assert(x == high * p + low);
        vstd::arithmetic::div_mod::lemma_fundamental_div_mod_converse(x as int, p, high, low);
        vstd::arithmetic::power2::lemma_pow2_adds((w - j) as nat, j as nat);
        let q = pow2((w - j) as nat) as int;
        assert(q * p == pow2(w));
        let shifted = if y >= w {
            0int
        } else {
            high
        };
        if y >= w {
            assert(high == 0);
            assert(pow2(w) <= pow2(y)) by {
                assert(pow2(y) == pow2(w) * pow2((y - w) as nat));
                assert(pow2(w) * pow2((y - w) as nat) >= pow2(w)) by (nonlinear_arith)
                    requires
                        pow2((y - w) as nat) >= 1,
                ;
            }
            vstd::arithmetic::div_mod::lemma_fundamental_div_mod_converse(
                x as int,
                pow2(y) as int,
                0,
                x as int,
            );
        }
        assert(x as int / pow2(y) as int == high);
        if op is AShr && lit_true(m, fill) {
            lemma_ones(m, hi, more);
            lemma_signed_number(m, a);
            assert(as_signed(x as int, w) == x - pow2(w));
            let s = x - pow2(w);
            if y < w {
                assert(s == (high - q) * p + low) by (nonlinear_arith)
                    requires
                        s == x - pow2(w),
                        x == high * p + low,
                        q * p == pow2(w),
                ;
                vstd::arithmetic::div_mod::lemma_fundamental_div_mod_converse(s, p, high - q, low);
                assert(s / p == high - q);
            } else {
                let d = pow2(y) as int;
                assert(s == (-1int) * d + (s + d)) by (nonlinear_arith);
                assert(pow2(w) <= d) by {
                    assert(pow2(w) * pow2((y - w) as nat) >= pow2(w)) by (nonlinear_arith)
                        requires
                            pow2((y - w) as nat) >= 1,
                    ;
                }
                vstd::arithmetic::div_mod::lemma_fundamental_div_mod_converse(s, d, -1, s + d);
                lemma2_to64();
                assert(q == 1);
            }
            let r = high - q;
            assert(q <= pow2(w)) by (nonlinear_arith)
                requires
                    q * p == pow2(w),
                    p >= 1,
                    q >= 0,
            ;
            vstd::arithmetic::div_mod::lemma_fundamental_div_mod_converse(
                r,
                pow2(w) as int,
                -1,
                r + pow2(w),
            );
            assert((w - j) as nat == hi.len());
        } else {
            assert forall|k: int| 0 <= k < more.len() implies !lit_true(m, #[trigger] more[k]) by {
                assert(more[k] == fill);
            }
            lemma_number_zeros(m, hi, more);
            if op is AShr {
                lemma_signed_number(m, a);
                assert(as_signed(x as int, w) == x);
                assert(high <= x) by (nonlinear_arith)
                    requires
                        x == high * p + low,
                        p >= 1,
                        low >= 0,
                        high >= 0,
                ;
                vstd::arithmetic::div_mod::lemma_small_mod(high as nat, pow2(w));
            }
        }
    }
}

/// The exponent of a power of two of up to 65 bits.
fn exponent(n: u128) -> (r: Option<u128>)
    ensures
        match r {
            Some(k) => k <= 64 && n == pow2(k as nat),
            None => forall|k: nat| k <= 64 ==> n != #[trigger] pow2(k),
        },
{
    let mut p: u128 = 1;
    let mut k: u128 = 0;
    proof {
        lemma2_to64();
    }
    while k <= 64
        invariant
            k <= 65,
            p == pow2(k as nat),
            p <= 0x2_0000_0000_0000_0000,
            k <= 64 ==> p <= 0x1_0000_0000_0000_0000,
            forall|q: nat| q < k ==> n != #[trigger] pow2(q),
        decreases 65 - k,
    {
        if p == n {
            return Some(k);
        }
        proof {
            lemma_pow2_unfold((k + 1) as nat);
            if k < 64 {
                lemma_pow2_up((k + 1) as nat);
            }
        }
        p = p * 2;
        k += 1;
    }
    None
}

/// Whether a number has at most `w` bits.
fn fits_in(n: u128, w: u32) -> (r: bool)
    requires
        w <= MAX_WIDTH,
    ensures
        r == (n < pow2(w as nat)),
{
    let mut x: u128 = n;
    let mut i: u32 = 0;
    proof {
        lemma2_to64();
    }
    while i < w
        invariant
            i <= w,
            (n < pow2(w as nat)) == (x < pow2((w - i) as nat)),
        decreases w - i,
    {
        proof {
            lemma_pow2_unfold((w - i) as nat);
        }
        x = x / 2;
        i += 1;
    }
    proof {
        lemma2_to64();
    }
    x == 0
}

// ---- decisions ----

/// The value of a variable in a model.
#[derive(Debug, Clone, Copy, PartialEq, Eq, Structural)]
pub struct Assigned {
    pub name: Symbol,
    pub width: u32,
    pub value: u64,
}

/// The values that a list gives to variables; 0 to those that it does not mention.
pub open spec fn valuation_of(s: Seq<Assigned>, name: Symbol, width: u32) -> nat
    decreases s.len(),
{
    if s.len() == 0 {
        0
    } else if s.last().name == name && s.last().width == width {
        s.last().value as nat
    } else {
        valuation_of(s.drop_last(), name, width)
    }
}

/// The valuation of a list.
pub open spec fn valued(s: Seq<Assigned>) -> Valuation {
    |name: Symbol, width: u32| valuation_of(s, name, width)
}

/// Whether premises imply a goal.
#[derive(Debug)]
pub enum Verdict {
    /// They do.
    Holds,
    /// They do not: the premises hold for these values and the goal does not.
    Fails(Vec<Assigned>),
    /// It was not decided.
    Unknown,
}

/// The premises hold and the goal does not.
pub open spec fn refutes(premises: Seq<Ex>, goal: Ex, v: Valuation) -> bool {
    &&& forall|i: int| 0 <= i < premises.len() ==> holds(#[trigger] premises[i], v)
    &&& !holds(goal, v)
}

/// Every expression is a truth value with a circuit.
pub open spec fn all_blastable(s: Seq<Ex>) -> bool {
    forall|i: int| 0 <= i < s.len() ==> blastable(#[trigger] s[i]) && width_of(s[i]) == 1
}

fn read_bits(m: &Vec<bool>, bits: &Vec<Lit>) -> (n: u64)
    requires
        bits@.len() <= MAX_WIDTH,
        within(bits@, m@.len() as int),
    ensures
        n == number(m@, bits@),
{
    let mut acc: u128 = 0;
    let mut p: u128 = 1;
    let mut k: usize = 0;
    proof {
        lemma2_to64();
        assert(bits@.take(0) =~= Seq::<Lit>::empty());
    }
    while k < bits.len()
        invariant
            k <= bits@.len() <= MAX_WIDTH,
            within(bits@, m@.len() as int),
            acc == number(m@, bits@.take(k as int)),
            p == pow2(k as nat),
            p <= 0x1_0000_0000_0000_0000,
            acc < p,
        decreases bits@.len() - k,
    {
        proof {
            assert(bits@.take(k + 1).drop_last() =~= bits@.take(k as int));
            assert(bits@.take(k + 1).last() == bits@[k as int]);
            assert(bits@[k as int].var < m@.len());
            lemma_pow2_unfold((k + 1) as nat);
            lemma_pow2_up(k as nat + 1);
        }
        let l = bits[k];
        if m[l.var as usize] != l.neg {
            acc = acc + p;
        }
        p = p * 2;
        k += 1;
    }
    assert(bits@.take(bits@.len() as int) =~= bits@);
    proof {
        lemma_number_bound(m@, bits@);
        lemma_pow2_up(bits@.len());
    }
    acc as u64
}

proof fn lemma_pow2_up(w: nat)
    requires
        w <= 64,
    ensures
        pow2(w) <= 0x1_0000_0000_0000_0000,
{
    lemma2_to64();
    if w < 64 {
        vstd::arithmetic::power2::lemma_pow2_strictly_increases(w, 64);
    }
}

fn read_model(syms: &Vec<SymBits>, m: &Vec<bool>) -> (r: Vec<Assigned>)
    requires
        forall|i: int|
            0 <= i < syms@.len() ==> narrow((#[trigger] syms@[i]).width) && syms@[i].bits@.len()
                == syms@[i].width && within(syms@[i].bits@, m@.len() as int),
    ensures
        r@.len() == syms@.len(),
        forall|i: int|
            0 <= i < syms@.len() ==> (#[trigger] r@[i]).name == syms@[i].name && r@[i].width
                == syms@[i].width && r@[i].value == number(m@, syms@[i].bits@),
{
    let mut out: Vec<Assigned> = Vec::new();
    let mut i: usize = 0;
    while i < syms.len()
        invariant
            i <= syms@.len(),
            forall|i: int|
                0 <= i < syms@.len() ==> narrow((#[trigger] syms@[i]).width) && syms@[i].bits@.len()
                    == syms@[i].width && within(syms@[i].bits@, m@.len() as int),
            out@.len() == i,
            forall|k: int|
                0 <= k < i ==> (#[trigger] out@[k]).name == syms@[k].name && out@[k].width
                    == syms@[k].width && out@[k].value == number(m@, syms@[k].bits@),
        decreases syms@.len() - i,
    {
        let s = &syms[i];
        assert(narrow(syms@[i as int].width));
        let value = read_bits(m, &s.bits);
        out.push(Assigned { name: s.name, width: s.width, value });
        i += 1;
    }
    out
}

proof fn lemma_valuation(s: Seq<Assigned>, i: int)
    requires
        0 <= i < s.len(),
        forall|j: int, k: int|
            0 <= j < k < s.len() ==> s[j].name != s[k].name || s[j].width != s[k].width,
    ensures
        valuation_of(s, s[i].name, s[i].width) == s[i].value,
    decreases s.len(),
{
    if i < s.len() - 1 {
        assert(s[i].name != s[s.len() - 1].name || s[i].width != s[s.len() - 1].width);
        assert(s.drop_last()[i] == s[i]);
        lemma_valuation(s.drop_last(), i);
    }
}

/// The literals are all true.
spec fn all_true(m: Seq<bool>, lits: Seq<Lit>) -> bool {
    forall|i: int| 0 <= i < lits.len() ==> lit_true(m, #[trigger] lits[i])
}

/// Clauses of one literal each.
spec fn units(lits: Seq<Lit>) -> Seq<Seq<Lit>> {
    Seq::new(lits.len(), |i: int| seq![lits[i]])
}

proof fn lemma_units(m: Seq<bool>, cs: Seq<Seq<Lit>>, lits: Seq<Lit>)
    ensures
        satisfies(m, cs + units(lits)) <==> satisfies(m, cs) && all_true(m, lits),
{
    let all = cs + units(lits);
    if satisfies(m, all) {
        assert forall|i: int| 0 <= i < cs.len() implies clause_true(m, #[trigger] cs[i]) by {
            assert(all[i] == cs[i]);
            assert(clause_true(m, all[i]));
        }
        assert forall|i: int| 0 <= i < lits.len() implies lit_true(m, #[trigger] lits[i]) by {
            assert(all[cs.len() + i] == seq![lits[i]]);
            assert(clause_true(m, all[cs.len() + i]));
            let l = choose|l: Lit| #[trigger] seq![lits[i]].contains(l) && lit_true(m, l);
            assert(l == lits[i]);
        }
    }
    if satisfies(m, cs) && all_true(m, lits) {
        assert forall|i: int| 0 <= i < all.len() implies clause_true(m, #[trigger] all[i]) by {
            if i < cs.len() {
                assert(clause_true(m, cs[i]));
            } else {
                let l = lits[i - cs.len()];
                assert(all[i] == seq![l]);
                assert(seq![l][0] == l);
                assert(all[i].contains(l) && lit_true(m, l));
            }
        }
    }
}

/// Literals that stand for truth values.
spec fn stand_for(b: Blaster, lits: Seq<Lit>, es: Seq<Ex>) -> bool {
    &&& lits.len() == es.len()
    &&& forall|i: int| 0 <= i < lits.len() ==> (#[trigger] lits[i]).var < b.cnf.num_vars
    &&& forall|i: int| 0 <= i < es.len() ==> b.means(seq![lits[i]], #[trigger] es[i])
}

proof fn lemma_stand_for(b: Blaster, lits: Seq<Lit>, es: Seq<Ex>, m: Seq<bool>, v: Valuation)
    requires
        stand_for(b, lits, es),
        b.cnf.models(m),
        agrees(b.syms@, m, v),
    ensures
        all_true(m, lits) <==> forall|i: int| 0 <= i < es.len() ==> holds(#[trigger] es[i], v),
{
    assert forall|i: int| 0 <= i < es.len() implies lit_true(m, lits[i]) == holds(
        #[trigger] es[i],
        v,
    ) by {
        assert(b.means(seq![lits[i]], es[i]));
        lemma_number_single(m, lits[i]);
    }
    if all_true(m, lits) {
        assert forall|i: int| 0 <= i < es.len() implies holds(#[trigger] es[i], v) by {
            assert(lit_true(m, lits[i]));
        }
    }
    if forall|i: int| 0 <= i < es.len() ==> holds(#[trigger] es[i], v) {
        assert forall|i: int| 0 <= i < lits.len() implies lit_true(m, #[trigger] lits[i]) by {
            assert(holds(es[i], v));
        }
    }
}

proof fn lemma_outlay_take(s: Seq<Ex>, n: int)
    requires
        0 <= n <= s.len(),
    ensures
        total_outlay(s.take(n)) <= total_outlay(s),
    decreases s.len() - n,
{
    if n < s.len() {
        lemma_outlay_take(s, n + 1);
        assert(s.take(n + 1).drop_last() =~= s.take(n));
    } else {
        assert(s.take(n) =~= s);
    }
}

fn encode_all(b: &mut Blaster, es: &Vec<Ex>) -> (r: Option<Vec<Lit>>)
    requires
        old(b).wf(),
        old(b).complete(),
    ensures
        final(b).wf(),
        final(b).complete(),
        final(b).cnf.num_vars <= old(b).cnf.num_vars + total_outlay(es@),
        match r {
            Some(lits) => all_blastable(es@) && stand_for(*final(b), lits@, es@),
            None => !all_blastable(es@) || final(b).cnf.num_vars > MAX_VARS,
        },
{
    let mut out: Vec<Lit> = Vec::new();
    let mut i: usize = 0;
    while i < es.len()
        invariant
            i <= es@.len(),
            b.wf(),
            b.complete(),
            b.cnf.num_vars <= old(b).cnf.num_vars + total_outlay(es@.take(i as int)),
            stand_for(*b, out@, es@.take(i as int)),
            forall|k: int| 0 <= k < i ==> blastable(#[trigger] es@[k]) && width_of(es@[k]) == 1,
        decreases es@.len() - i,
    {
        let ghost g = *b;
        let ghost before = out@;
        assert(es@.take(i + 1).drop_last() =~= es@.take(i as int));
        match b.encode_bool(&es[i]) {
            Some(l) => {
                out.push(l);
                proof {
                    let now = es@.take(i + 1);
                    assert forall|k: int| 0 <= k < now.len() implies b.means(
                        seq![out@[k]],
                        #[trigger] now[k],
                    ) by {
                        if k < i {
                            assert(now[k] == es@.take(i as int)[k]);
                            assert(g.means(seq![before[k]], es@.take(i as int)[k]));
                            b.lemma_means_kept(&g, seq![before[k]], es@.take(i as int)[k]);
                        }
                    }
                    assert forall|k: int| 0 <= k < out@.len() implies (#[trigger] out@[k]).var
                        < b.cnf.num_vars by {
                        if k < i {
                            assert(before[k].var < g.cnf.num_vars);
                        }
                    }
                }
            },
            None => {
                proof {
                    lemma_outlay_take(es@, i + 1);
                }
                return None;
            },
        }
        i += 1;
    }
    assert(es@.take(es@.len() as int) =~= es@);
    Some(out)
}

/// Require every literal.
fn require_all(cnf: &mut Cnf, lits: &Vec<Lit>)
    requires
        old(cnf).wf(),
        within(lits@, old(cnf).num_vars as int),
    ensures
        final(cnf).wf(),
        final(cnf).num_vars == old(cnf).num_vars,
        clause_views(final(cnf).clauses@) == clause_views(old(cnf).clauses@) + units(lits@),
{
    let ghost start = clause_views(cnf.clauses@);
    let mut i: usize = 0;
    assert(start + units(lits@.take(0)) =~= start);
    while i < lits.len()
        invariant
            i <= lits@.len(),
            cnf.wf(),
            cnf.num_vars == old(cnf).num_vars,
            within(lits@, old(cnf).num_vars as int),
            clause_views(cnf.clauses@) == start + units(lits@.take(i as int)),
        decreases lits@.len() - i,
    {
        assert(lits@[i as int].var < cnf.num_vars);
        cnf.require(lits[i]);
        assert(clause_views(cnf.clauses@) =~= start + units(lits@.take(i + 1)));
        i += 1;
    }
    assert(lits@.take(lits@.len() as int) =~= lits@);
}

/// The goal is plainly implied: it is true or a premise, or a premise is false.
pub open spec fn evident(premises: Seq<Ex>, goal: Ex) -> bool {
    goal == truth(true) || premises.contains(goal) || premises.contains(truth(false))
}

fn is_evident(premises: &Vec<Ex>, goal: &Ex) -> (r: bool)
    ensures
        r == evident(premises@, *goal),
        r ==> entails(premises@, *goal),
{
    if let Expr::Bool(true) = &**goal {
        return true;
    }
    let mut i: usize = 0;
    while i < premises.len()
        invariant
            i <= premises@.len(),
            *goal != truth(true),
            forall|k: int|
                0 <= k < i ==> (#[trigger] premises@[k]) != *goal && premises@[k] != truth(false),
        decreases premises@.len() - i,
    {
        let no: bool = match &*premises[i] {
            Expr::Bool(b) => !*b,
            _ => false,
        };
        if no {
            assert(premises@[i as int] == truth(false));
            assert(forall|v: Valuation| !holds(premises@[i as int], v));
            return true;
        }
        if same(&premises[i], goal) {
            assert(premises@[i as int] == *goal);
            return true;
        }
        i += 1;
    }
    false
}

/// A formula of `vars` variables asks whether premises imply a goal: it has no model if and
/// only if they do, and it has no more variables than their translation takes.
pub open spec fn asks(premises: Seq<Ex>, goal: Ex, vars: nat, f: Seq<Seq<Lit>>) -> bool {
    &&& unsatisfiable(vars, f) <==> entails(premises, goal)
    &&& vars <= total_outlay(premises) + outlay(goal)
}

/// A search with a budget gave up on a formula.
pub open spec fn gave_up(vars: nat, f: Seq<Seq<Lit>>, budget: int) -> bool {
    exists|decisions: int, ticks: int, readings: Seq<u128>| #[trigger]
        searched(vars, f, Map::empty(), budget, SatResult::Unknown, decisions, ticks, readings)
}

/// What is decided of whether premises imply a goal: what is evident, and nothing else that
/// has no circuit. The rest is left open only where its translation may take too many
/// variables, or a search of its formula gave up.
pub open spec fn decided(premises: Seq<Ex>, goal: Ex, budget: int, r: Verdict) -> bool {
    &&& match r {
        Verdict::Holds => entails(premises, goal),
        Verdict::Fails(s) => refutes(premises, goal, valued(s@)),
        Verdict::Unknown => !evident(premises, goal) && (!all_blastable(premises.push(goal))
            || total_outlay(premises) + outlay(goal) > MAX_VARS || exists|
            vars: nat,
            f: Seq<Seq<Lit>>,
        | #[trigger]
            asks(premises, goal, vars, f) && gave_up(vars, f, budget)),
    }
    &&& evident(premises, goal) ==> r is Holds
    &&& !evident(premises, goal) && !all_blastable(premises.push(goal)) ==> r is Unknown
}

/// The values that an assignment of bits gives to variables.
spec fn spelled_by(syms: Seq<SymBits>, m: Seq<bool>) -> Valuation {
    |name: Symbol, width: u32|
        if exists|i: int| 0 <= i < syms.len() && named(#[trigger] syms[i], name, width) {
            number(
                m,
                syms[choose|i: int|
                    0 <= i < syms.len() && named(#[trigger] syms[i], name, width)].bits@,
            )
        } else {
            0
        }
}

spec fn named(s: SymBits, name: Symbol, width: u32) -> bool {
    s.name == name && s.width == width
}

/// Every assignment gives the variables some values.
proof fn lemma_spelled_by(b: Blaster, m: Seq<bool>)
    requires
        b.wf(),
    ensures
        agrees(b.syms@, m, spelled_by(b.syms@, m)),
{
    let v = spelled_by(b.syms@, m);
    assert forall|i: int| 0 <= i < b.syms@.len() implies number(m, (#[trigger] b.syms@[i]).bits@)
        == wrapped(v(b.syms@[i].name, b.syms@[i].width) as int, b.syms@[i].width as nat) by {
        let s = b.syms@[i];
        assert(named(b.syms@[i], s.name, s.width));
        let j = choose|j: int|
            0 <= j < b.syms@.len() && named(#[trigger] b.syms@[j], s.name, s.width);
        assert(i == j) by {
            if i < j {
                assert(b.syms@[i].name != b.syms@[j].name || b.syms@[i].width
                    != b.syms@[j].width);
            } else if j < i {
                assert(b.syms@[j].name != b.syms@[i].name || b.syms@[j].width
                    != b.syms@[i].width);
            }
        }
        lemma_number_bound(m, s.bits@);
        vstd::arithmetic::div_mod::lemma_small_mod(number(m, s.bits@), pow2(s.width as nat));
    }
}

/// Premises and a negated goal, required of a formula that stands for them, ask whether the
/// premises imply the goal.
proof fn lemma_asks(b: Blaster, lits: Seq<Lit>, premises: Seq<Ex>, goal: Ex)
    requires
        b.wf(),
        b.complete(),
        stand_for(b, lits, premises.push(negation(goal))),
        b.cnf.num_vars <= total_outlay(premises) + outlay(goal),
    ensures
        asks(
            premises,
            goal,
            b.cnf.num_vars as nat,
            clause_views(b.cnf.clauses@) + units(lits),
        ),
{
    let goals = premises.push(negation(goal));
    let cs = clause_views(b.cnf.clauses@);
    let n = b.cnf.num_vars as nat;
    if unsatisfiable(n, cs + units(lits)) {
        assert forall|v: Valuation|
            (forall|i: int| 0 <= i < premises.len() ==> holds(#[trigger] premises[i], v)) implies #[trigger] holds(
        goal, v) by {
            if !holds(goal, v) {
                assert(b.admits(v));
                let m = choose|m: Seq<bool>| #[trigger] b.realizes(m, v);
                assert forall|i: int| 0 <= i < goals.len() implies holds(#[trigger] goals[i], v) by {
                    if i < premises.len() {
                        assert(goals[i] == premises[i]);
                        assert(holds(premises[i], v));
                    }
                }
                lemma_stand_for(b, lits, goals, m, v);
                lemma_units(m, cs, lits);
                assert(satisfies(m, cs + units(lits)));
            }
        }
    }
    if entails(premises, goal) {
        assert forall|m: Seq<bool>| m.len() == n implies !satisfies(m, cs + units(lits)) by {
            if satisfies(m, cs + units(lits)) {
                let v = spelled_by(b.syms@, m);
                lemma_units(m, cs, lits);
                assert(b.cnf.models(m));
                lemma_spelled_by(b, m);
                lemma_stand_for(b, lits, goals, m, v);
                assert forall|i: int| 0 <= i < premises.len() implies holds(
                    #[trigger] premises[i],
                    v,
                ) by {
                    assert(goals[i] == premises[i]);
                    assert(holds(goals[i], v));
                }
                assert(holds(goals[premises.len() as int], v));
                assert(holds(goal, v));
            }
        }
    }
}

/// Decide whether premises imply a goal, for every value of the variables. What is not
/// decided is not evident: it has no circuit, is too large, or takes longer than the budget
/// or the time for a search.
pub fn decide(premises: &Vec<Ex>, goal: &Ex, budget: u64) -> (r: Verdict)
    ensures
        decided(premises@, *goal, budget as int, r),
{
    if is_evident(premises, goal) {
        return Verdict::Holds;
    }
    let ghost whole = premises@.push(*goal);
    let mut b = Blaster::new();
    let lits = match encode_all(&mut b, premises) {
        Some(l) => l,
        None => {
            proof {
                if all_blastable(whole) {
                    assert forall|i: int| 0 <= i < premises@.len() implies blastable(
                        #[trigger] premises@[i],
                    ) && width_of(premises@[i]) == 1 by {
                        assert(whole[i] == premises@[i]);
                    }
                }
            }
            return Verdict::Unknown;
        },
    };
    let ghost g1 = b;
    let g = match b.encode_bool(goal) {
        Some(l) => l,
        None => {
            assert(whole[premises@.len() as int] == *goal);
            return Verdict::Unknown;
        },
    };
    assert(all_blastable(whole)) by {
        assert forall|i: int| 0 <= i < whole.len() implies blastable(#[trigger] whole[i])
            && width_of(whole[i]) == 1 by {
            if i < premises@.len() {
                assert(whole[i] == premises@[i]);
            }
        }
    }
    let n: usize = b.cnf.num_vars;
    if n > MAX_VARS {
        return Verdict::Unknown;
    }
    let ghost fin = b;
    let mut all = lits;
    all.push(g.negated());
    let ghost goals = premises@.push(negation(*goal));
    let ghost ng = negation(*goal);
    proof {
        assert(b.means(seq![all@[premises@.len() as int]], ng)) by {
            assert forall|m: Seq<bool>, v: Valuation|
                #[trigger] b.cnf.models(m) && #[trigger] agrees(b.syms@, m, v) implies number(
                m,
                seq![all@[premises@.len() as int]],
            ) == value(ng, v) by {
                lemma_number_single(m, g);
                lemma_number_single(m, all@[premises@.len() as int]);
            }
        }
        assert forall|k: int| 0 <= k < goals.len() implies b.means(
            seq![all@[k]],
            #[trigger] goals[k],
        ) by {
            if k < premises@.len() {
                assert(g1.means(seq![lits@[k]], premises@[k]));
                b.lemma_means_kept(&g1, seq![lits@[k]], premises@[k]);
            }
        }
        assert forall|k: int| 0 <= k < all@.len() implies (#[trigger] all@[k]).var
            < b.cnf.num_vars by {
            if k < premises@.len() {
                assert(lits@[k].var < g1.cnf.num_vars);
            }
        }
        assert(stand_for(fin, all@, goals));
    }
    let mut cnf = b.cnf;
    let syms = b.syms;
    let ghost cs = clause_views(fin.cnf.clauses@);
    require_all(&mut cnf, &all);
    assert forall|i: int, k: int| 0 <= i < cnf.clauses@.len() && 0 <= k
        < cnf.clauses@[i]@.len() implies (#[trigger] cnf.clauses@[i]@[k]).var < n by {
        assert(within(cnf.clauses@[i]@, n as int));
    }
    let mut solver = Solver::new(n, cnf.clauses);
    proof {
        lemma_asks(fin, all@, premises@, *goal);
    }
    match solver.solve(budget) {
        SatResult::Unsat => Verdict::Holds,
        SatResult::Sat(m) => {
            proof {
                assert forall|i: int| 0 <= i < syms@.len() implies narrow(
                    (#[trigger] syms@[i]).width,
                ) && syms@[i].bits@.len() == syms@[i].width && within(
                    syms@[i].bits@,
                    m@.len() as int,
                ) by {
                    assert(syms@[i] == fin.syms@[i]);
                }
            }
            let s = read_model(&syms, &m);
            proof {
                let v = valued(s@);
                lemma_units(m@, cs, all@);
                assert(fin.cnf.models(m@));
                assert forall|j: int, k: int| 0 <= j < k < s@.len() implies s@[j].name != s@[k].name
                    || s@[j].width != s@[k].width by {
                    assert(fin.syms@[j].name != fin.syms@[k].name || fin.syms@[j].width
                        != fin.syms@[k].width);
                    assert(s@[j].name == syms@[j].name && s@[k].name == syms@[k].name);
                }
                assert(agrees(fin.syms@, m@, v)) by {
                    assert forall|i: int| 0 <= i < fin.syms@.len() implies number(
                        m@,
                        (#[trigger] fin.syms@[i]).bits@,
                    ) == wrapped(
                        v(fin.syms@[i].name, fin.syms@[i].width) as int,
                        fin.syms@[i].width as nat,
                    ) by {
                        lemma_valuation(s@, i);
                        assert(s@[i].name == syms@[i].name);
                        lemma_number_bound(m@, fin.syms@[i].bits@);
                        vstd::arithmetic::div_mod::lemma_small_mod(
                            number(m@, fin.syms@[i].bits@),
                            pow2(fin.syms@[i].width as nat),
                        );
                    }
                }
                lemma_stand_for(fin, all@, goals, m@, v);
                assert forall|i: int| 0 <= i < premises@.len() implies holds(
                    #[trigger] premises@[i],
                    v,
                ) by {
                    assert(goals[i] == premises@[i]);
                    assert(holds(goals[i], v));
                }
                assert(holds(goals[premises@.len() as int], v));
                assert(!holds(*goal, v));
            }
            Verdict::Fails(s)
        },
        SatResult::Unknown => {
            assert(gave_up(n as nat, cs + units(all@), budget as int));
            Verdict::Unknown
        },
    }
}

// ---- laws ----

/// A question whose translation takes at most six variables is decided with the default
/// budget or a larger one, if it has circuits.
pub proof fn small_questions_are_decided(
    premises: Seq<Ex>,
    goal: Ex,
    budget: int,
    r: Verdict,
)
    requires
        decided(premises, goal, budget, r),
        DEFAULT_BUDGET <= budget,
        all_blastable(premises.push(goal)),
        total_outlay(premises) + outlay(goal) <= 6,
    ensures
        !(r is Unknown),
        r is Holds <==> entails(premises, goal),
{
    if r is Unknown {
        let (vars, f) = choose|vars: nat, f: Seq<Seq<Lit>>| #[trigger]
            asks(premises, goal, vars, f) && gave_up(vars, f, budget);
        let (d, t, c) = choose|d: int, t: int, c: Seq<u128>| #[trigger]
            searched(vars, f, Map::empty(), budget, SatResult::Unknown, d, t, c);
        small_formulas_are_decided(vars, f, Map::empty(), budget, SatResult::Unknown, d, t, c);
    }
    if let Verdict::Fails(s) = r {
        assert(!holds(goal, valued(s@)));
    }
}

/// A question with circuits that is not too large is left open only where unit clauses do not
/// settle its formula.
pub proof fn open_questions_need_a_search(
    premises: Seq<Ex>,
    goal: Ex,
    budget: int,
    r: Verdict,
)
    requires
        decided(premises, goal, budget, r),
        r is Unknown,
        all_blastable(premises.push(goal)),
        total_outlay(premises) + outlay(goal) <= MAX_VARS,
    ensures
        exists|vars: nat, f: Seq<Seq<Lit>>| #[trigger]
            asks(premises, goal, vars, f) && !unit_refuted(f) && some_open(vars, f),
{
    let (vars, f) = choose|vars: nat, f: Seq<Seq<Lit>>| #[trigger]
        asks(premises, goal, vars, f) && gave_up(vars, f, budget);
    let (d, t, c) = choose|d: int, t: int, c: Seq<u128>| #[trigger]
        searched(vars, f, Map::empty(), budget, SatResult::Unknown, d, t, c);
    assert(asks(premises, goal, vars, f));
}

/// Carrying out an operation on constants keeps its value.
pub proof fn folding_keeps_values(op: BvOp, a: Ex, b: Ex, v: Valuation)
    ensures
        value(bin(op, a, b), v) == value(std::rc::Rc::new(Expr::Bin { op, a, b }), v),
{
    if let (Expr::Const(x), Expr::Const(y)) = (&*a, &*b) {
        if let Some(r) = folded(op, *x, *y) {
            let w = x.width as nat;
            let p = pow2(w) as int;
            lemma2_to64();
            lemma_pow2_pos(w);
            if w < 64 {
                vstd::arithmetic::power2::lemma_pow2_strictly_increases(w, 64);
            }
            vstd::arithmetic::div_mod::lemma_mod_bound(x.bits + y.bits, p);
            vstd::arithmetic::div_mod::lemma_mod_bound(x.bits - y.bits, p);
            vstd::arithmetic::div_mod::lemma_mod_bound(x.bits * y.bits, p);
            let e = std::rc::Rc::new(Expr::Bin { op, a, b });
            assert(value(e, v) == operated(op, x.bits as nat, y.bits as nat, w)) by {
                reveal_with_fuel(value, 3);
            }
            assert(bin(op, a, b) == std::rc::Rc::new(Expr::Const(r)));
        }
    }
}

} // verus!
