//! What gates and circuits add to a formula. A gate with a constant input, or with inputs
//! that are the same or opposite, adds nothing: its literal is there already.

use crate::bitblast::not_lit;
use crate::sat::Lit;
use vstd::prelude::*;

verus! {

/// A formula as a mathematical value: the number of variables, the clauses, and the literal
/// that is known to be true, where there is one.
#[verifier::ext_equal]
pub struct CnfView {
    pub vars: int,
    pub clauses: Seq<Seq<Lit>>,
    pub constant: Option<Lit>,
}

/// A formula without variables.
pub open spec fn nothing() -> CnfView {
    CnfView { vars: 0, clauses: Seq::empty(), constant: None }
}

/// The formula with one more variable, and its literal.
pub open spec fn var_of(c: CnfView) -> (CnfView, Lit) {
    (CnfView { vars: c.vars + 1, ..c }, Lit { var: c.vars as u32, neg: false })
}

/// The formula with one more clause.
pub open spec fn with_clause(c: CnfView, clause: Seq<Lit>) -> CnfView {
    CnfView { clauses: c.clauses.push(clause), ..c }
}

/// The literal that is always true, made where there is none yet.
pub open spec fn truth_of(c: CnfView) -> (CnfView, Lit) {
    match c.constant {
        Some(t) => (c, t),
        None => {
            let (d, l) = var_of(c);
            (CnfView { constant: Some(l), ..with_clause(d, seq![l]) }, l)
        },
    }
}

/// The literal that is always false.
pub open spec fn falsity_of(c: CnfView) -> (CnfView, Lit) {
    let (d, t) = truth_of(c);
    (d, not_lit(t))
}

/// The literal is the constant true.
pub open spec fn known_true(c: CnfView, l: Lit) -> bool {
    c.constant == Some(l)
}

/// The literal is the constant false.
pub open spec fn known_false(c: CnfView, l: Lit) -> bool {
    c.constant == Some(not_lit(l))
}

/// A literal for `a ∧ b`.
pub open spec fn and_of(c: CnfView, a: Lit, b: Lit) -> (CnfView, Lit) {
    if known_false(c, a) || known_false(c, b) {
        falsity_of(c)
    } else if known_true(c, a) {
        (c, b)
    } else if known_true(c, b) || a == b {
        (c, a)
    } else if a == not_lit(b) {
        falsity_of(c)
    } else {
        let (d, o) = var_of(c);
        let d1 = with_clause(d, seq![not_lit(a), not_lit(b), o]);
        let d2 = with_clause(d1, seq![a, not_lit(o)]);
        (with_clause(d2, seq![b, not_lit(o)]), o)
    }
}

/// A literal for `a ∨ b`.
pub open spec fn or_of(c: CnfView, a: Lit, b: Lit) -> (CnfView, Lit) {
    if known_true(c, a) || known_true(c, b) {
        truth_of(c)
    } else if known_false(c, a) {
        (c, b)
    } else if known_false(c, b) || a == b {
        (c, a)
    } else if a == not_lit(b) {
        truth_of(c)
    } else {
        let (d, o) = var_of(c);
        let d1 = with_clause(d, seq![a, b, not_lit(o)]);
        let d2 = with_clause(d1, seq![not_lit(a), o]);
        (with_clause(d2, seq![not_lit(b), o]), o)
    }
}

/// A literal for `a ⊕ b`.
pub open spec fn xor_of(c: CnfView, a: Lit, b: Lit) -> (CnfView, Lit) {
    if known_false(c, a) {
        (c, b)
    } else if known_false(c, b) {
        (c, a)
    } else if known_true(c, a) {
        (c, not_lit(b))
    } else if known_true(c, b) {
        (c, not_lit(a))
    } else if a == b {
        falsity_of(c)
    } else if a == not_lit(b) {
        truth_of(c)
    } else {
        let (d, o) = var_of(c);
        let d1 = with_clause(d, seq![not_lit(a), not_lit(b), not_lit(o)]);
        let d2 = with_clause(d1, seq![a, b, not_lit(o)]);
        let d3 = with_clause(d2, seq![a, not_lit(b), o]);
        (with_clause(d3, seq![not_lit(a), b, o]), o)
    }
}

/// A literal for `a` where `s` holds and for `b` where it does not.
pub open spec fn mux_of(c: CnfView, s: Lit, a: Lit, b: Lit) -> (CnfView, Lit) {
    if known_true(c, s) {
        (c, a)
    } else if known_false(c, s) {
        (c, b)
    } else if a == b {
        (c, a)
    } else {
        let (d, t) = and_of(c, s, a);
        let (d2, e) = and_of(d, not_lit(s), b);
        or_of(d2, t, e)
    }
}

/// The sum bit and the carry of a full adder.
pub open spec fn full_adder_of(c: CnfView, a: Lit, b: Lit, cin: Lit) -> (CnfView, Lit, Lit) {
    let (d1, axb) = xor_of(c, a, b);
    let (d2, sum) = xor_of(d1, axb, cin);
    let (d3, ab) = and_of(d2, a, b);
    let (d4, cx) = and_of(d3, cin, axb);
    let (d5, cout) = or_of(d4, ab, cx);
    (d5, sum, cout)
}

/// The lowest `n` sum bits and the carry of an adder.
pub open spec fn adder_of(c: CnfView, a: Seq<Lit>, b: Seq<Lit>, cin: Lit, n: int) -> (
    CnfView,
    Seq<Lit>,
    Lit,
)
    decreases n,
{
    if n <= 0 {
        (c, Seq::empty(), cin)
    } else {
        let (d, out, carry) = adder_of(c, a, b, cin, n - 1);
        let (d2, s, k) = full_adder_of(d, a[n - 1], b[n - 1], carry);
        (d2, out.push(s), k)
    }
}

/// The bits of a sum.
pub open spec fn add_of(c: CnfView, a: Seq<Lit>, b: Seq<Lit>) -> (CnfView, Seq<Lit>) {
    let (d, f) = falsity_of(c);
    let (d2, out, _) = adder_of(d, a, b, f, a.len() as int);
    (d2, out)
}

/// The lowest `n` bits of `a` shifted left by `j`, where `bj` holds.
pub open spec fn product_of(
    c: CnfView,
    a: Seq<Lit>,
    bj: Lit,
    j: int,
    zero: Lit,
    n: int,
) -> (CnfView, Seq<Lit>)
    decreases n,
{
    if n <= 0 {
        (c, Seq::empty())
    } else {
        let (d, out) = product_of(c, a, bj, j, zero, n - 1);
        if n - 1 < j {
            (d, out.push(zero))
        } else {
            let (d2, l) = and_of(d, a[n - 1 - j], bj);
            (d2, out.push(l))
        }
    }
}

/// The sum of the first `n` partial products.
pub open spec fn products_of(c: CnfView, a: Seq<Lit>, b: Seq<Lit>, zero: Lit, n: int) -> (
    CnfView,
    Seq<Lit>,
)
    decreases n,
{
    if n <= 0 {
        (c, Seq::new(a.len(), |p: int| zero))
    } else {
        let (d, acc) = products_of(c, a, b, zero, n - 1);
        let (d2, pp) = product_of(d, a, b[n - 1], n - 1, zero, a.len() as int);
        add_of(d2, acc, pp)
    }
}

/// The bits of a product.
pub open spec fn mul_of(c: CnfView, a: Seq<Lit>, b: Seq<Lit>) -> (CnfView, Seq<Lit>) {
    let (d, zero) = falsity_of(c);
    products_of(d, a, b, zero, a.len() as int)
}

// ---- laws ----

/// A gate with a constant input, or with inputs that are the same or opposite, adds nothing
/// where the constant is there already.
pub proof fn constant_gates_add_nothing(c: CnfView, t: Lit, b: Lit)
    requires
        c.constant == Some(t),
    ensures
        and_of(c, t, b) == (c, b) && and_of(c, b, t) == (c, b),
        and_of(c, not_lit(t), b) == (c, not_lit(t)) && and_of(c, b, not_lit(t)) == (c, not_lit(t)),
        and_of(c, b, b) == (c, b) && and_of(c, b, not_lit(b)) == (c, not_lit(t)),
        or_of(c, not_lit(t), b) == (c, b) && or_of(c, b, not_lit(t)) == (c, b),
        or_of(c, t, b) == (c, t) && or_of(c, b, t) == (c, t),
        or_of(c, b, b) == (c, b) && or_of(c, b, not_lit(b)) == (c, t),
        xor_of(c, not_lit(t), b) == (c, b) && xor_of(c, b, not_lit(t)) == (c, b),
        xor_of(c, t, b) == (c, not_lit(b)) && xor_of(c, b, t) == (c, not_lit(b)),
        xor_of(c, b, b) == (c, not_lit(t)) && xor_of(c, b, not_lit(b)) == (c, t),
{
    assert(not_lit(not_lit(t)) == t);
    assert(not_lit(not_lit(b)) == b);
}

proof fn lemma_add_zeros(c: CnfView, t: Lit, a: Seq<Lit>, b: Seq<Lit>, n: int)
    requires
        c.constant == Some(t),
        a.len() == b.len(),
        0 <= n <= a.len(),
        forall|p: int|
            0 <= p < a.len() ==> (#[trigger] a[p]) == not_lit(t) || b[p] == not_lit(t),
    ensures
        ({
            let (d, out, carry) = adder_of(c, a, b, not_lit(t), n);
            &&& d == c
            &&& carry == not_lit(t)
            &&& out == Seq::new(
                n as nat,
                |p: int|
                    if a[p] == not_lit(t) {
                        b[p]
                    } else {
                        a[p]
                    },
            )
        }),
    decreases n,
{
    let f = not_lit(t);
    let sum = Seq::new(
        n as nat,
        |p: int|
            if a[p] == f {
                b[p]
            } else {
                a[p]
            },
    );
    if n > 0 {
        lemma_add_zeros(c, t, a, b, n - 1);
        let x = a[n - 1];
        let y = b[n - 1];
        let z = if x == f {
            y
        } else {
            x
        };
        constant_gates_add_nothing(c, t, x);
        constant_gates_add_nothing(c, t, y);
        constant_gates_add_nothing(c, t, z);
        constant_gates_add_nothing(c, t, f);
        assert(full_adder_of(c, x, y, f) == (c, z, f));
    }
    assert(adder_of(c, a, b, f, n).1 =~= sum);
}

/// The literals shifted left by `j`, with `zero` below.
pub open spec fn shifted_left(a: Seq<Lit>, j: int, zero: Lit) -> Seq<Lit> {
    Seq::new(
        a.len(),
        |p: int|
            if p < j {
                zero
            } else {
                a[p - j]
            },
    )
}

proof fn lemma_product_constant(c: CnfView, t: Lit, a: Seq<Lit>, on: bool, j: int, n: int)
    requires
        c.constant == Some(t),
        0 <= n <= a.len(),
        0 <= j,
    ensures
        product_of(
            c,
            a,
            if on {
                t
            } else {
                not_lit(t)
            },
            j,
            not_lit(t),
            n,
        ) == (
            c,
            if on {
                shifted_left(a, j, not_lit(t)).take(n)
            } else {
                Seq::new(n as nat, |p: int| not_lit(t))
            },
        ),
    decreases n,
{
    let f = not_lit(t);
    let bj = if on {
        t
    } else {
        f
    };
    let bits = if on {
        shifted_left(a, j, f).take(n)
    } else {
        Seq::new(n as nat, |p: int| f)
    };
    if n > 0 {
        lemma_product_constant(c, t, a, on, j, n - 1);
        if n - 1 >= j {
            constant_gates_add_nothing(c, t, a[n - 1 - j]);
        }
    }
    assert(product_of(c, a, bj, j, f, n).1 =~= bits);
}

/// The bits are constants, and bit `k` alone is true.
pub open spec fn only_bit(c: CnfView, b: Seq<Lit>, k: int) -> bool {
    &&& c.constant is Some
    &&& 0 <= k < b.len()
    &&& forall|p: int|
        0 <= p < b.len() ==> #[trigger] b[p] == if p == k {
            c.constant->0
        } else {
            not_lit(c.constant->0)
        }
}

proof fn lemma_products_constant(c: CnfView, t: Lit, a: Seq<Lit>, b: Seq<Lit>, k: int, n: int)
    requires
        c.constant == Some(t),
        a.len() == b.len(),
        only_bit(c, b, k),
        0 <= n <= b.len(),
    ensures
        products_of(c, a, b, not_lit(t), n) == (
            c,
            if n > k {
                shifted_left(a, k, not_lit(t))
            } else {
                Seq::new(a.len(), |p: int| not_lit(t))
            },
        ),
    decreases n,
{
    let f = not_lit(t);
    let zeros = Seq::new(a.len(), |p: int| f);
    if n > 0 {
        lemma_products_constant(c, t, a, b, k, n - 1);
        let acc = products_of(c, a, b, f, n - 1).1;
        assert(b[n - 1] == if n - 1 == k {
            t
        } else {
            f
        });
        lemma_product_constant(c, t, a, n - 1 == k, n - 1, a.len() as int);
        let pp = product_of(c, a, b[n - 1], n - 1, f, a.len() as int).1;
        assert(shifted_left(a, k, f).take(a.len() as int) =~= shifted_left(a, k, f));
        lemma_add_zeros(c, t, acc, pp, a.len() as int);
        let sum = add_of(c, acc, pp).1;
        if n - 1 == k {
            assert(sum =~= shifted_left(a, k, f));
        } else {
            assert(sum =~= acc);
        }
    }
}

/// Multiplying by a constant power of two shifts: it adds no gate.
pub proof fn powers_of_two_shift(c: CnfView, a: Seq<Lit>, b: Seq<Lit>, k: int)
    requires
        a.len() == b.len(),
        only_bit(c, b, k),
    ensures
        mul_of(c, a, b) == (c, shifted_left(a, k, not_lit(c.constant->0))),
{
    lemma_products_constant(c, c.constant->0, a, b, k, a.len() as int);
}

} // verus!
