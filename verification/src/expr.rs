//! Bit-vector expressions.

use crate::ir::{low_bits, BitVector};
use crate::text::{joined, number_text, numeral};
use std::rc::Rc;
use vstd::arithmetic::power2::pow2;
use vstd::prelude::*;

verus! {

/// A binary bit-vector operation.
#[derive(Clone, Copy, PartialEq, Eq, Hash, Debug, Structural)]
pub enum BvOp {
    Add,
    Sub,
    Mul,
    UDiv,
    SDiv,
    URem,
    SRem,
    And,
    Or,
    Xor,
    Shl,
    LShr,
    AShr,
}

/// A comparison of two bit-vectors.
#[derive(Clone, Copy, PartialEq, Eq, Hash, Debug, Structural)]
pub enum CmpOp {
    Eq,
    Ne,
    Ult,
    Ule,
    Ugt,
    Uge,
    Slt,
    Sle,
    Sgt,
    Sge,
}

/// A free variable, named by where its value comes from.
#[derive(Clone, Copy, PartialEq, Eq, Debug, Structural)]
pub enum Symbol {
    /// The parameter at a position.
    Arg(u64),
    /// A value of which nothing is known.
    Fresh(u64),
    /// A counter that takes every value its loop guard admits.
    Ind(u64),
    /// Untrusted user data.
    User(u64),
    /// The address of the symbol at a position in a table of names.
    Global(u64),
}

/// An expression: a bit-vector, or a truth value of width 1.
#[derive(PartialEq, Eq, Debug)]
pub enum Expr {
    Sym { name: Symbol, width: u32 },
    Const(BitVector),
    Bool(bool),
    Not(Rc<Expr>),
    Bin { op: BvOp, a: Rc<Expr>, b: Rc<Expr> },
    Rel { op: CmpOp, a: Rc<Expr>, b: Rc<Expr> },
    And(Rc<Expr>, Rc<Expr>),
    Or(Rc<Expr>, Rc<Expr>),
    Ite { c: Rc<Expr>, t: Rc<Expr>, e: Rc<Expr> },
    Zext(Rc<Expr>, u32),
}

/// A shared expression.
pub type Ex = Rc<Expr>;

impl Symbol {
    /// The name of the variable, given the table of names.
    pub open spec fn shown(self, names: Seq<String>) -> Seq<char> {
        match self {
            Symbol::Arg(n) => "arg"@ + numeral(n as nat),
            Symbol::Fresh(n) => "?"@ + numeral(n as nat),
            Symbol::Ind(n) => "ind"@ + numeral(n as nat),
            Symbol::User(n) => "user"@ + numeral(n as nat),
            Symbol::Global(n) => if n < names.len() {
                "@"@ + names[n as int]@
            } else {
                "@"@ + numeral(n as nat)
            },
        }
    }

    /// The name of the variable, given the table of names.
    pub fn render(&self, names: &Vec<String>) -> (s: String)
        ensures
            s@ == self.shown(names@),
    {
        match self {
            Symbol::Arg(n) => joined("arg", number_text(*n as u128).as_str()),
            Symbol::Fresh(n) => joined("?", number_text(*n as u128).as_str()),
            Symbol::Ind(n) => joined("ind", number_text(*n as u128).as_str()),
            Symbol::User(n) => joined("user", number_text(*n as u128).as_str()),
            Symbol::Global(n) => {
                if *n < names.len() as u64 {
                    joined("@", names[*n as usize].as_str())
                } else {
                    joined("@", number_text(*n as u128).as_str())
                }
            },
        }
    }
}

/// The width of an expression.
pub open spec fn width_of(e: Ex) -> u32
    decreases e,
{
    match *e {
        Expr::Sym { width, .. } => width,
        Expr::Const(b) => b.width,
        Expr::Bin { a, .. } => width_of(a),
        Expr::Ite { t, .. } => width_of(t),
        Expr::Zext(_, w) => w,
        _ => 1,
    }
}

/// The width of an expression.
pub fn width(e: &Ex) -> (w: u32)
    ensures
        w == width_of(*e),
    decreases e,
{
    match &**e {
        Expr::Sym { width, .. } => *width,
        Expr::Const(b) => b.width,
        Expr::Bin { a, .. } => width(a),
        Expr::Ite { t, .. } => width(t),
        Expr::Zext(_, w) => *w,
        _ => 1,
    }
}

/// A constant of a width.
pub open spec fn lit(w: u32, v: u128) -> Ex {
    Rc::new(Expr::Const(BitVector { width: w, bits: low_bits(w, v) }))
}

/// A constant of a width.
pub fn mk_lit(w: u32, v: u128) -> (e: Ex)
    ensures
        e == lit(w, v),
{
    Rc::new(Expr::Const(BitVector::new(w, v)))
}

/// Two constants of one width of up to 64 bits.
pub open spec fn foldable(x: BitVector, y: BitVector) -> bool {
    &&& x.width == y.width
    &&& 0 < x.width <= 64
    &&& x.bits < pow2(x.width as nat)
    &&& y.bits < pow2(x.width as nat)
}

/// The sum, difference or product of constants, modulo two to the width.
pub open spec fn folded(op: BvOp, x: BitVector, y: BitVector) -> Option<BitVector> {
    let p = pow2(x.width as nat) as int;
    let r = match op {
        BvOp::Add => Some((x.bits + y.bits) % p),
        BvOp::Sub => Some((x.bits - y.bits) % p),
        BvOp::Mul => Some((x.bits * y.bits) % p),
        _ => None,
    };
    match r {
        Some(n) => if foldable(x, y) {
            Some(BitVector { width: x.width, bits: n as u128 })
        } else {
            None
        },
        None => None,
    }
}

/// A bit-vector operation; one on constants is carried out.
pub open spec fn bin(op: BvOp, a: Ex, b: Ex) -> Ex {
    match (*a, *b) {
        (Expr::Const(x), Expr::Const(y)) => match folded(op, x, y) {
            Some(r) => Rc::new(Expr::Const(r)),
            None => Rc::new(Expr::Bin { op, a, b }),
        },
        _ => Rc::new(Expr::Bin { op, a, b }),
    }
}

proof fn lemma_powers(w: nat)
    requires
        w <= 64,
    ensures
        0 < pow2(w) <= 0x1_0000_0000_0000_0000,
{
    vstd::arithmetic::power2::lemma2_to64();
    vstd::arithmetic::power2::lemma_pow2_pos(w);
    if w < 64 {
        vstd::arithmetic::power2::lemma_pow2_strictly_increases(w, 64);
    }
}

/// Two to the power `w`.
pub fn power(w: u32) -> (p: u128)
    requires
        w <= 64,
    ensures
        p == pow2(w as nat),
        0 < p <= 0x1_0000_0000_0000_0000,
{
    let mut p: u128 = 1;
    let mut i: u32 = 0;
    proof {
        vstd::arithmetic::power2::lemma2_to64();
    }
    while i < w
        invariant
            i <= w <= 64,
            p == pow2(i as nat),
            0 < p <= 0x1_0000_0000_0000_0000,
        decreases w - i,
    {
        proof {
            vstd::arithmetic::power2::lemma_pow2_unfold((i + 1) as nat);
            lemma_powers((i + 1) as nat);
        }
        p = p * 2;
        i += 1;
    }
    p
}

fn fold(op: BvOp, x: &BitVector, y: &BitVector) -> (r: Option<BitVector>)
    ensures
        r == folded(op, *x, *y),
{
    if x.width != y.width || x.width == 0 || x.width > 64 {
        return None;
    }
    let p: u128 = power(x.width);
    if x.bits >= p || y.bits >= p {
        return None;
    }
    let n: u128 = match op {
        BvOp::Add => (x.bits + y.bits) % p,
        BvOp::Sub => {
            proof {
                vstd::arithmetic::div_mod::lemma_mod_add_multiples_vanish(
                    x.bits - y.bits,
                    p as int,
                );
            }
            (x.bits + (p - y.bits)) % p
        },
        BvOp::Mul => {
            assert(x.bits * y.bits <= 0xffff_ffff_ffff_ffff * 0xffff_ffff_ffff_ffff)
                by (nonlinear_arith)
                requires
                    x.bits <= 0xffff_ffff_ffff_ffff,
                    y.bits <= 0xffff_ffff_ffff_ffff,
            ;
            (x.bits * y.bits) % p
        },
        _ => {
            return None;
        },
    };
    Some(BitVector { width: x.width, bits: n })
}

/// A bit-vector operation; one on constants is carried out.
pub fn mk_bin(op: BvOp, a: &Ex, b: &Ex) -> (e: Ex)
    ensures
        e == bin(op, *a, *b),
{
    if let (Expr::Const(x), Expr::Const(y)) = (&**a, &**b) {
        if let Some(r) = fold(op, x, y) {
            return Rc::new(Expr::Const(r));
        }
    }
    Rc::new(Expr::Bin { op, a: a.clone(), b: b.clone() })
}

/// A comparison.
pub open spec fn rel(op: CmpOp, a: Ex, b: Ex) -> Ex {
    Rc::new(Expr::Rel { op, a, b })
}

/// A comparison.
pub fn mk_rel(op: CmpOp, a: &Ex, b: &Ex) -> (e: Ex)
    ensures
        e == rel(op, *a, *b),
{
    Rc::new(Expr::Rel { op, a: a.clone(), b: b.clone() })
}

/// `a <= b`, signed.
pub open spec fn sle(a: Ex, b: Ex) -> Ex {
    rel(CmpOp::Sle, a, b)
}

/// `a <= b`, signed.
pub fn mk_sle(a: &Ex, b: &Ex) -> (e: Ex)
    ensures
        e == sle(*a, *b),
{
    mk_rel(CmpOp::Sle, a, b)
}

/// `a >= b`, signed.
pub open spec fn sge(a: Ex, b: Ex) -> Ex {
    rel(CmpOp::Sge, a, b)
}

/// `a >= b`, signed.
pub fn mk_sge(a: &Ex, b: &Ex) -> (e: Ex)
    ensures
        e == sge(*a, *b),
{
    mk_rel(CmpOp::Sge, a, b)
}

/// `a <= b`, unsigned.
pub open spec fn ule(a: Ex, b: Ex) -> Ex {
    rel(CmpOp::Ule, a, b)
}

/// `a <= b`, unsigned.
pub fn mk_ule(a: &Ex, b: &Ex) -> (e: Ex)
    ensures
        e == ule(*a, *b),
{
    mk_rel(CmpOp::Ule, a, b)
}

/// `a == b`.
pub open spec fn equal(a: Ex, b: Ex) -> Ex {
    rel(CmpOp::Eq, a, b)
}

/// `a == b`.
pub fn mk_equal(a: &Ex, b: &Ex) -> (e: Ex)
    ensures
        e == equal(*a, *b),
{
    mk_rel(CmpOp::Eq, a, b)
}

/// A negation.
pub open spec fn negation(a: Ex) -> Ex {
    Rc::new(Expr::Not(a))
}

/// A negation.
pub fn mk_not(a: &Ex) -> (e: Ex)
    ensures
        e == negation(*a),
{
    Rc::new(Expr::Not(a.clone()))
}

/// A truth value.
pub open spec fn truth(b: bool) -> Ex {
    Rc::new(Expr::Bool(b))
}

/// A truth value.
pub fn mk_bool(b: bool) -> (e: Ex)
    ensures
        e == truth(b),
{
    Rc::new(Expr::Bool(b))
}

/// A choice.
pub open spec fn ite(c: Ex, t: Ex, e: Ex) -> Ex {
    Rc::new(Expr::Ite { c, t, e })
}

/// A choice.
pub fn mk_ite(c: &Ex, t: &Ex, e: &Ex) -> (r: Ex)
    ensures
        r == ite(*c, *t, *e),
{
    Rc::new(Expr::Ite { c: c.clone(), t: t.clone(), e: e.clone() })
}

/// An expression widened with zeros, where it is not that wide.
pub open spec fn zext(e: Ex, w: u32) -> Ex {
    if width_of(e) == w {
        e
    } else {
        Rc::new(Expr::Zext(e, w))
    }
}

/// An expression widened with zeros, where it is not that wide.
pub fn mk_zext(e: &Ex, w: u32) -> (r: Ex)
    ensures
        r == zext(*e, w),
{
    if width(e) == w {
        e.clone()
    } else {
        Rc::new(Expr::Zext(e.clone(), w))
    }
}

/// The conjunction of expressions; true for none.
pub open spec fn conj(s: Seq<Ex>) -> Ex
    decreases s.len(),
{
    if s.len() == 0 {
        truth(true)
    } else if s.len() == 1 {
        s[0]
    } else {
        Rc::new(Expr::And(conj(s.drop_last()), s.last()))
    }
}

/// The conjunction of expressions; true for none.
pub fn mk_conj(s: &Vec<Ex>) -> (e: Ex)
    ensures
        e == conj(s@),
{
    if s.len() == 0 {
        return mk_bool(true);
    }
    let mut acc: Ex = s[0].clone();
    let mut i: usize = 1;
    assert(s@.take(1).len() == 1);
    while i < s.len()
        invariant
            1 <= i <= s@.len(),
            acc == conj(s@.take(i as int)),
        decreases s@.len() - i,
    {
        assert(s@.take(i + 1).drop_last() =~= s@.take(i as int));
        acc = Rc::new(Expr::And(acc, s[i].clone()));
        i += 1;
    }
    assert(s@.take(s@.len() as int) =~= s@);
    acc
}

/// Whether two expressions are the same.
pub fn same(x: &Ex, y: &Ex) -> (r: bool)
    ensures
        r == (*x == *y),
    decreases x,
{
    match (&**x, &**y) {
        (Expr::Sym { name: n, width: w }, Expr::Sym { name: m, width: v }) => *w == *v && *n == *m,
        (Expr::Const(a), Expr::Const(b)) => a.width == b.width && a.bits == b.bits,
        (Expr::Bool(a), Expr::Bool(b)) => *a == *b,
        (Expr::Not(a), Expr::Not(b)) => same(a, b),
        (Expr::Bin { op: o, a, b }, Expr::Bin { op: p, a: c, b: d }) => *o == *p && same(a, c)
            && same(b, d),
        (Expr::Rel { op: o, a, b }, Expr::Rel { op: p, a: c, b: d }) => *o == *p && same(a, c)
            && same(b, d),
        (Expr::And(a, b), Expr::And(c, d)) => same(a, c) && same(b, d),
        (Expr::Or(a, b), Expr::Or(c, d)) => same(a, c) && same(b, d),
        (Expr::Ite { c, t, e }, Expr::Ite { c: d, t: u, e: f }) => same(c, d) && same(t, u)
            && same(e, f),
        (Expr::Zext(a, w), Expr::Zext(b, v)) => *w == *v && same(a, b),
        _ => false,
    }
}

/// Some variable of the expression satisfies the predicate.
pub open spec fn mentions(e: Ex, p: spec_fn(Symbol) -> bool) -> bool
    decreases e,
{
    match *e {
        Expr::Sym { name, .. } => p(name),
        Expr::Const(_) => false,
        Expr::Bool(_) => false,
        Expr::Not(a) => mentions(a, p),
        Expr::Bin { a, b, .. } => mentions(a, p) || mentions(b, p),
        Expr::Rel { a, b, .. } => mentions(a, p) || mentions(b, p),
        Expr::And(a, b) => mentions(a, p) || mentions(b, p),
        Expr::Or(a, b) => mentions(a, p) || mentions(b, p),
        Expr::Ite { c, t, e } => mentions(c, p) || mentions(t, p) || mentions(e, p),
        Expr::Zext(a, _) => mentions(a, p),
    }
}

/// A parameter.
pub open spec fn is_param(s: Symbol) -> bool {
    s is Arg
}

/// A value that an input may not take freely: unknown ones and addresses, and parameters
/// of a function that is not exported.
pub open spec fn not_genuine(s: Symbol, exported: bool) -> bool {
    match s {
        Symbol::User(_) => false,
        Symbol::Ind(_) => false,
        Symbol::Arg(_) => !exported,
        _ => true,
    }
}

/// Whether an expression depends on a parameter.
pub fn goal_has_param(e: &Ex) -> (r: bool)
    ensures
        r == mentions(*e, |s: Symbol| is_param(s)),
    decreases e,
{
    match &**e {
        Expr::Sym { name, .. } => match name {
            Symbol::Arg(_) => true,
            _ => false,
        },
        Expr::Const(_) => false,
        Expr::Bool(_) => false,
        Expr::Not(a) => goal_has_param(a),
        Expr::Bin { a, b, .. } => goal_has_param(a) || goal_has_param(b),
        Expr::Rel { a, b, .. } => goal_has_param(a) || goal_has_param(b),
        Expr::And(a, b) => goal_has_param(a) || goal_has_param(b),
        Expr::Or(a, b) => goal_has_param(a) || goal_has_param(b),
        Expr::Ite { c, t, e } => goal_has_param(c) || goal_has_param(t) || goal_has_param(e),
        Expr::Zext(a, _) => goal_has_param(a),
    }
}

/// Whether every variable of an expression is a genuine input.
pub fn goal_is_genuine(e: &Ex, exported: bool) -> (r: bool)
    ensures
        r == !mentions(*e, |s: Symbol| not_genuine(s, exported)),
    decreases e,
{
    match &**e {
        Expr::Sym { name, .. } => match name {
            Symbol::User(_) => true,
            Symbol::Ind(_) => true,
            Symbol::Arg(_) => exported,
            _ => false,
        },
        Expr::Const(_) => true,
        Expr::Bool(_) => true,
        Expr::Not(a) => goal_is_genuine(a, exported),
        Expr::Bin { a, b, .. } => goal_is_genuine(a, exported) && goal_is_genuine(b, exported),
        Expr::Rel { a, b, .. } => goal_is_genuine(a, exported) && goal_is_genuine(b, exported),
        Expr::And(a, b) => goal_is_genuine(a, exported) && goal_is_genuine(b, exported),
        Expr::Or(a, b) => goal_is_genuine(a, exported) && goal_is_genuine(b, exported),
        Expr::Ite { c, t, e } => goal_is_genuine(c, exported) && goal_is_genuine(t, exported)
            && goal_is_genuine(e, exported),
        Expr::Zext(a, _) => goal_is_genuine(a, exported),
    }
}

} // verus!
