//! Evaluating operands, values and conditions.

use crate::affine::{params_in, Affine, AffineView};
use crate::exec::machine::{fresh_scalar, symbol, Machine, MachineView};
use crate::exec::merge::selected;
use crate::exec::value::{
    value_width, type_width, POrigin, PathState, PathView, Prov, ScalarPtrCause, SymPointer,
    SymValue, PTR_WIDTH,
};
use crate::expr::{
    bin, lit, mk_bin, mk_bool, mk_lit, mk_not, mk_rel, negation, rel, truth, BvOp, Ex, Expr, Symbol,
};
use crate::ir::{BinOp, CastOp, CmpOp, Condition, Const, Operand, RValue, Type};
use crate::names::{entry, lookup, name_texts, table};
use crate::numbers::{at, find, numbered};
use std::rc::Rc;
use vstd::prelude::*;

verus! {

/// What does not change during an exploration.
pub struct Scene {
    /// How registers that are used as pointers were computed.
    pub causes: Vec<(u32, ScalarPtrCause)>,
    /// The region and alignment of each global.
    pub globals: Vec<(String, (usize, u64))>,
    /// The symbols that the function refers to.
    pub names: Vec<String>,
}

/// What does not change, as a mathematical value.
pub struct SceneView {
    pub causes: Map<u32, ScalarPtrCause>,
    pub globals: Map<Seq<char>, (usize, u64)>,
    pub names: Seq<Seq<char>>,
}

impl View for Scene {
    type V = SceneView;

    open spec fn view(&self) -> SceneView {
        SceneView {
            causes: numbered(self.causes@),
            globals: table(self.globals@),
            names: name_texts(self.names@),
        }
    }
}

/// The position of a name, or the number of names.
pub open spec fn name_index(names: Seq<Seq<char>>, name: Seq<char>) -> int
    decreases names.len(),
{
    if names.len() == 0 {
        0
    } else {
        let i = name_index(names.drop_last(), name);
        if i < names.len() - 1 || names.last() == name {
            i
        } else {
            names.len() as int
        }
    }
}

// ---- values ----

/// Zero, as wide as a pointer.
pub open spec fn zero() -> Ex {
    lit(PTR_WIDTH, 0)
}

/// A pointer that is not tracked.
pub open spec fn untracked(o: POrigin) -> SymPointer {
    SymPointer { prov: Prov::Unknown(o), offset: zero(), align: 1 }
}

/// A value of a type of which nothing is known.
pub open spec fn fresh_value(m: MachineView, ty: Type, o: POrigin) -> (MachineView, SymValue) {
    if ty is Ptr {
        (m, SymValue::Ptr(untracked(o)))
    } else {
        let (m1, e) = fresh_scalar(m, value_width(ty));
        (m1, SymValue::Scalar(e))
    }
}

/// The number of which nothing is known.
pub open spec fn fresh_number(m: MachineView) -> (MachineView, SymValue) {
    let (m1, e) = fresh_scalar(m, PTR_WIDTH);
    (m1, SymValue::Scalar(e))
}

/// A signed constant, as wide as a pointer.
pub open spec fn signed_lit(v: int) -> Ex {
    if v >= 0 {
        lit(PTR_WIDTH, v as u128)
    } else {
        bin(BvOp::Sub, zero(), lit(PTR_WIDTH, (-v) as u128))
    }
}

/// A pointer into a global.
pub open spec fn global_ptr(g: (usize, u64), off: i64) -> SymPointer {
    SymPointer {
        prov: Prov::Region(g.0),
        offset: signed_lit(off as int),
        align: if off >= 0 && g.1 > 0 && off as int % g.1 as int == 0 {
            g.1
        } else {
            1
        },
    }
}

/// The value of an operand.
pub open spec fn value_of(sc: SceneView, m: MachineView, s: PathView, op: Operand) -> (
    MachineView,
    SymValue,
) {
    match op {
        Operand::Reg(r) => match at(s.env, r.0) {
            Some(v) => (m, v),
            None => fresh_number(m),
        },
        Operand::Const(Const::Int(b)) => (m, SymValue::Scalar(Rc::new(Expr::Const(b)))),
        Operand::Const(Const::Null) => (
            m,
            SymValue::Ptr(SymPointer { prov: Prov::Null, offset: zero(), align: 1 }),
        ),
        Operand::Const(Const::Undef) => fresh_number(m),
        Operand::Const(Const::Symbol(n)) => match entry(sc.globals, n@) {
            Some(g) => (
                m,
                SymValue::Ptr(
                    SymPointer { prov: Prov::Region(g.0), offset: zero(), align: g.1 },
                ),
            ),
            None => (
                m,
                SymValue::Scalar(
                    symbol(Symbol::Global(name_index(sc.names, n@) as u64), PTR_WIDTH),
                ),
            ),
        },
        Operand::Const(Const::SymbolOffset(n, off)) => match entry(sc.globals, n@) {
            Some(g) => (m, SymValue::Ptr(global_ptr(g, off))),
            None => fresh_number(m),
        },
    }
}

/// A value as a number: 0 for the null pointer, and unknown for other pointers.
pub open spec fn scalarized(m: MachineView, v: SymValue) -> (MachineView, Ex) {
    match v {
        SymValue::Scalar(e) => (m, e),
        SymValue::Ptr(p) => match p.prov {
            Prov::Null => (m, zero()),
            _ => fresh_scalar(m, PTR_WIDTH),
        },
    }
}

/// The value of an operand as a number.
pub open spec fn scalar_of(sc: SceneView, m: MachineView, s: PathView, op: Operand) -> (
    MachineView,
    Ex,
) {
    let (m1, v) = value_of(sc, m, s, op);
    scalarized(m1, v)
}

/// The value of an operand as a pointer: a number is not tracked.
pub open spec fn pointer_of(sc: SceneView, m: MachineView, s: PathView, op: Operand) -> (
    MachineView,
    SymPointer,
) {
    match value_of(sc, m, s, op) {
        (m1, SymValue::Ptr(p)) => (m1, p),
        (m1, SymValue::Scalar(_)) => (m1, untracked(POrigin::ScalarAsPtr(cause_of(sc, op)))),
    }
}

/// How an operand that is used as a pointer was computed.
pub open spec fn cause_of(sc: SceneView, op: Operand) -> ScalarPtrCause {
    match op {
        Operand::Reg(r) => match at(sc.causes, r.0) {
            Some(c) => c,
            None => ScalarPtrCause::Other,
        },
        _ => ScalarPtrCause::Other,
    }
}

/// The values of operands, in order.
pub open spec fn values_of(sc: SceneView, m: MachineView, s: PathView, ops: Seq<Operand>) -> (
    MachineView,
    Seq<SymValue>,
)
    decreases ops.len(),
{
    if ops.len() == 0 {
        (m, Seq::empty())
    } else {
        let (m1, vs) = values_of(sc, m, s, ops.drop_last());
        let (m2, v) = value_of(sc, m1, s, ops.last());
        (m2, vs.push(v))
    }
}

// ---- operations ----

/// The bit-vector operation of a binary operation.
pub open spec fn bv_op(op: BinOp) -> BvOp {
    match op {
        BinOp::Add => BvOp::Add,
        BinOp::Sub => BvOp::Sub,
        BinOp::Mul => BvOp::Mul,
        BinOp::UDiv => BvOp::UDiv,
        BinOp::SDiv => BvOp::SDiv,
        BinOp::URem => BvOp::URem,
        BinOp::SRem => BvOp::SRem,
        BinOp::And => BvOp::And,
        BinOp::Or => BvOp::Or,
        BinOp::Xor => BvOp::Xor,
        BinOp::Shl => BvOp::Shl,
        BinOp::LShr => BvOp::LShr,
        BinOp::AShr => BvOp::AShr,
    }
}

/// The bit-vector operation of a binary operation.
pub fn map_binop(op: BinOp) -> (r: BvOp)
    ensures
        r == bv_op(op),
{
    match op {
        BinOp::Add => BvOp::Add,
        BinOp::Sub => BvOp::Sub,
        BinOp::Mul => BvOp::Mul,
        BinOp::UDiv => BvOp::UDiv,
        BinOp::SDiv => BvOp::SDiv,
        BinOp::URem => BvOp::URem,
        BinOp::SRem => BvOp::SRem,
        BinOp::And => BvOp::And,
        BinOp::Or => BvOp::Or,
        BinOp::Xor => BvOp::Xor,
        BinOp::Shl => BvOp::Shl,
        BinOp::LShr => BvOp::LShr,
        BinOp::AShr => BvOp::AShr,
    }
}

/// The comparison of bit-vectors of a comparison.
pub open spec fn bv_relation(op: CmpOp) -> crate::expr::CmpOp {
    match op {
        CmpOp::Eq => crate::expr::CmpOp::Eq,
        CmpOp::Ne => crate::expr::CmpOp::Ne,
        CmpOp::Ult => crate::expr::CmpOp::Ult,
        CmpOp::Ule => crate::expr::CmpOp::Ule,
        CmpOp::Ugt => crate::expr::CmpOp::Ugt,
        CmpOp::Uge => crate::expr::CmpOp::Uge,
        CmpOp::Slt => crate::expr::CmpOp::Slt,
        CmpOp::Sle => crate::expr::CmpOp::Sle,
        CmpOp::Sgt => crate::expr::CmpOp::Sgt,
        CmpOp::Sge => crate::expr::CmpOp::Sge,
    }
}

/// The comparison of bit-vectors of a comparison.
pub fn map_cmpop(op: CmpOp) -> (r: crate::expr::CmpOp)
    ensures
        r == bv_relation(op),
{
    match op {
        CmpOp::Eq => crate::expr::CmpOp::Eq,
        CmpOp::Ne => crate::expr::CmpOp::Ne,
        CmpOp::Ult => crate::expr::CmpOp::Ult,
        CmpOp::Ule => crate::expr::CmpOp::Ule,
        CmpOp::Ugt => crate::expr::CmpOp::Ugt,
        CmpOp::Uge => crate::expr::CmpOp::Uge,
        CmpOp::Slt => crate::expr::CmpOp::Slt,
        CmpOp::Sle => crate::expr::CmpOp::Sle,
        CmpOp::Sgt => crate::expr::CmpOp::Sgt,
        CmpOp::Sge => crate::expr::CmpOp::Sge,
    }
}

/// The region that two values both point into.
pub open spec fn shared_region(a: SymValue, b: SymValue) -> bool {
    match (a, b) {
        (
            SymValue::Ptr(SymPointer { prov: Prov::Region(x), .. }),
            SymValue::Ptr(SymPointer { prov: Prov::Region(y), .. }),
        ) => x == y,
        _ => false,
    }
}

/// A comparison: of the offsets for two pointers into one region, of numbers otherwise.
pub open spec fn compared(
    sc: SceneView,
    m: MachineView,
    s: PathView,
    op: CmpOp,
    lhs: Operand,
    rhs: Operand,
) -> (MachineView, Ex) {
    let (m1, x) = value_of(sc, m, s, lhs);
    let (m2, y) = value_of(sc, m1, s, rhs);
    if shared_region(x, y) {
        (m2, rel(bv_relation(op), x->Ptr_0.offset, y->Ptr_0.offset))
    } else {
        let (m3, a) = scalarized(m2, x);
        let (m4, b) = scalarized(m3, y);
        (m4, rel(bv_relation(op), a, b))
    }
}

/// The value of a right side.
pub open spec fn rvalue_of(sc: SceneView, m: MachineView, s: PathView, rv: RValue) -> (
    MachineView,
    SymValue,
) {
    match rv {
        RValue::Use(op) => value_of(sc, m, s, op),
        RValue::Bin { op, lhs, rhs } => {
            let (m1, a) = scalar_of(sc, m, s, lhs);
            let (m2, b) = scalar_of(sc, m1, s, rhs);
            (m2, SymValue::Scalar(bin(bv_op(op), a, b)))
        },
        RValue::Cmp { op, lhs, rhs } => {
            let (m1, e) = compared(sc, m, s, op, lhs, rhs);
            (m1, SymValue::Scalar(e))
        },
        RValue::Cast { op, operand, .. } => match op {
            CastOp::Bitcast => value_of(sc, m, s, operand),
            CastOp::IntToPtr => (m, SymValue::Ptr(untracked(POrigin::IntToPtr))),
            CastOp::ZExt => extended(sc, m, s, operand),
            CastOp::SExt => extended(sc, m, s, operand),
            CastOp::Trunc => fresh_number(m),
            CastOp::PtrToInt => fresh_number(m),
        },
        RValue::Select { cond, on_true, on_false } => {
            let (m1, d) = scalar_of(sc, m, s, cond);
            let (m2, a) = value_of(sc, m1, s, on_true);
            let (m3, b) = value_of(sc, m2, s, on_false);
            selected(m3, d, a, b, Type::Int { bits: 64 })
        },
    }
}

/// The value of a widened number.
pub open spec fn extended(sc: SceneView, m: MachineView, s: PathView, op: Operand) -> (
    MachineView,
    SymValue,
) {
    match value_of(sc, m, s, op) {
        (m1, SymValue::Scalar(e)) => (m1, SymValue::Scalar(e)),
        (m1, SymValue::Ptr(_)) => fresh_number(m1),
    }
}

/// A checked condition as an expression.
pub open spec fn condition_of(sc: SceneView, m: MachineView, s: PathView, c: Condition) -> (
    MachineView,
    Ex,
)
    decreases c,
{
    match c {
        Condition::True => (m, truth(true)),
        Condition::Cmp { op, lhs, rhs } => compared(sc, m, s, op, lhs, rhs),
        Condition::And(a, b) => {
            let (m1, x) = condition_of(sc, m, s, *a);
            let (m2, y) = condition_of(sc, m1, s, *b);
            (m2, Rc::new(Expr::And(x, y)))
        },
        Condition::Or(a, b) => {
            let (m1, x) = condition_of(sc, m, s, *a);
            let (m2, y) = condition_of(sc, m1, s, *b);
            (m2, Rc::new(Expr::Or(x, y)))
        },
        Condition::Not(a) => {
            let (m1, x) = condition_of(sc, m, s, *a);
            (m1, negation(x))
        },
    }
}

// ---- affine forms ----

/// The argument at a position as a number, or an unknown one.
pub open spec fn argument(m: MachineView, args: Seq<SymValue>, k: int) -> (MachineView, Ex) {
    if 0 <= k < args.len() && args[k] is Scalar {
        (m, args[k]->Scalar_0)
    } else {
        fresh_scalar(m, PTR_WIDTH)
    }
}

/// The constant of a form plus its first `n` terms.
pub open spec fn affine_sum(m: MachineView, a: AffineView, args: Seq<SymValue>, n: int) -> (
    MachineView,
    Ex,
)
    decreases n,
{
    if n <= 0 {
        (m, signed_lit(a.constant as int))
    } else {
        let (m1, acc) = affine_sum(m, a, args, n - 1);
        let k = params_in(a.terms)[n - 1];
        let (m2, x) = argument(m1, args, k);
        let c = signed_lit(a.terms[k as usize] as int);
        (m2, bin(BvOp::Add, acc, bin(BvOp::Mul, x, c)))
    }
}

/// An affine form of arguments as an expression.
pub open spec fn affine_of(m: MachineView, a: AffineView, args: Seq<SymValue>) -> (MachineView, Ex) {
    affine_sum(m, a, args, params_in(a.terms).len() as int)
}

/// A pointer at an affine offset from an argument.
pub open spec fn offset_argument(
    m: MachineView,
    arg: usize,
    offset: AffineView,
    args: Seq<SymValue>,
    ty: Type,
) -> (MachineView, SymValue) {
    if arg < args.len() && args[arg as int] is Ptr {
        let base = args[arg as int]->Ptr_0;
        let (m1, delta) = affine_of(m, offset, args);
        (
            m1,
            SymValue::Ptr(
                SymPointer {
                    prov: base.prov,
                    offset: bin(BvOp::Add, base.offset, delta),
                    align: base.align,
                },
            ),
        )
    } else {
        fresh_value(m, ty, POrigin::Call)
    }
}

// ---- evaluation ----

fn mk_zero() -> (e: Ex)
    ensures
        e == zero(),
{
    mk_lit(PTR_WIDTH, 0)
}

/// A signed constant, as wide as a pointer.
pub fn const_expr(v: i128) -> (e: Ex)
    ensures
        e == signed_lit(v as int),
{
    if v >= 0 {
        mk_lit(PTR_WIDTH, v as u128)
    } else {
        let mag: u128 = (-(v + 1)) as u128 + 1;
        mk_bin(BvOp::Sub, &mk_zero(), &mk_lit(PTR_WIDTH, mag))
    }
}

/// A pointer that is not tracked.
pub fn mk_untracked(o: POrigin) -> (p: SymPointer)
    ensures
        p == untracked(o),
{
    SymPointer { prov: Prov::Unknown(o), offset: mk_zero(), align: 1 }
}

impl Scene {
    fn index_of(&self, name: &String) -> (i: u64)
        ensures
            i == name_index(self@.names, name@) as u64,
    {
        let ghost all = self@.names;
        let mut i: usize = 0;
        let mut found: usize = 0;
        assert(all.take(0) =~= Seq::<Seq<char>>::empty());
        while i < self.names.len()
            invariant
                i <= self.names@.len(),
                all == name_texts(self.names@),
                found == name_index(all.take(i as int), name@),
                found <= i,
            decreases self.names@.len() - i,
        {
            assert(all.take(i + 1).drop_last() =~= all.take(i as int));
            assert(all.take(i + 1).last() == self.names@[i as int]@);
            if found == i && self.names[i] != *name {
                found = i + 1;
            }
            i += 1;
        }
        assert(all.take(all.len() as int) =~= all);
        found as u64
    }

    fn cause(&self, op: &Operand) -> (c: ScalarPtrCause)
        ensures
            c == cause_of(self@, *op),
    {
        match op {
            Operand::Reg(r) => match find(&self.causes, r.0) {
                Some(c) => *c,
                None => ScalarPtrCause::Other,
            },
            _ => ScalarPtrCause::Other,
        }
    }
}

fn mk_global_ptr(region: usize, align: u64, off: i64) -> (p: SymPointer)
    ensures
        p == global_ptr((region, align), off),
{
    let a: u64 = if off >= 0 && align > 0 && (off as u64) % align == 0 {
        align
    } else {
        1
    };
    SymPointer { prov: Prov::Region(region), offset: const_expr(off as i128), align: a }
}

impl<'a> Machine<'a> {
    /// A value of a type of which nothing is known.
    pub fn fresh_value(&mut self, ty: &Type, o: POrigin) -> (v: SymValue)
        ensures
            (final(self)@, v) == fresh_value(old(self)@, *ty, o),
    {
        if ty.is_ptr() {
            SymValue::Ptr(mk_untracked(o))
        } else {
            SymValue::Scalar(self.fresh_scalar(type_width(ty)))
        }
    }

    /// The value of an operand.
    pub fn eval_value(&mut self, sc: &Scene, op: &Operand, s: &PathState) -> (v: SymValue)
        ensures
            (final(self)@, v) == value_of(sc@, old(self)@, s@, *op),
    {
        match op {
            Operand::Reg(r) => match find(&s.env, r.0) {
                Some(v) => v.copy(),
                None => SymValue::Scalar(self.fresh_scalar(PTR_WIDTH)),
            },
            Operand::Const(Const::Int(b)) => SymValue::Scalar(Rc::new(Expr::Const(*b))),
            Operand::Const(Const::Null) => SymValue::Ptr(
                SymPointer { prov: Prov::Null, offset: mk_zero(), align: 1 },
            ),
            Operand::Const(Const::Undef) => SymValue::Scalar(self.fresh_scalar(PTR_WIDTH)),
            Operand::Const(Const::Symbol(n)) => match lookup(&sc.globals, n) {
                Some(g) => SymValue::Ptr(
                    SymPointer { prov: Prov::Region(g.0), offset: mk_zero(), align: g.1 },
                ),
                None => SymValue::Scalar(
                    Rc::new(
                        Expr::Sym { name: Symbol::Global(sc.index_of(n)), width: PTR_WIDTH },
                    ),
                ),
            },
            Operand::Const(Const::SymbolOffset(n, off)) => match lookup(&sc.globals, n) {
                Some(g) => SymValue::Ptr(mk_global_ptr(g.0, g.1, *off)),
                None => SymValue::Scalar(self.fresh_scalar(PTR_WIDTH)),
            },
        }
    }

    /// A value as a number.
    pub fn scalarize(&mut self, v: SymValue) -> (e: Ex)
        ensures
            (final(self)@, e) == scalarized(old(self)@, v),
    {
        match v {
            SymValue::Scalar(e) => e,
            SymValue::Ptr(p) => match p.prov {
                Prov::Null => mk_zero(),
                _ => self.fresh_scalar(PTR_WIDTH),
            },
        }
    }

    /// The value of an operand as a number.
    pub fn eval_scalar(&mut self, sc: &Scene, op: &Operand, s: &PathState) -> (e: Ex)
        ensures
            (final(self)@, e) == scalar_of(sc@, old(self)@, s@, *op),
    {
        let v = self.eval_value(sc, op, s);
        self.scalarize(v)
    }

    /// The value of an operand as a pointer.
    pub fn eval_pointer(&mut self, sc: &Scene, op: &Operand, s: &PathState) -> (p: SymPointer)
        ensures
            (final(self)@, p) == pointer_of(sc@, old(self)@, s@, *op),
    {
        match self.eval_value(sc, op, s) {
            SymValue::Ptr(p) => p,
            SymValue::Scalar(_) => mk_untracked(POrigin::ScalarAsPtr(sc.cause(op))),
        }
    }

    /// The values of operands, in order.
    pub fn eval_values(&mut self, sc: &Scene, ops: &Vec<Operand>, s: &PathState) -> (r: Vec<
        SymValue,
    >)
        ensures
            (final(self)@, r@) == values_of(sc@, old(self)@, s@, ops@),
    {
        let mut out: Vec<SymValue> = Vec::new();
        let mut i: usize = 0;
        assert(ops@.take(0) =~= Seq::<Operand>::empty());
        assert(out@ =~= Seq::<SymValue>::empty());
        while i < ops.len()
            invariant
                i <= ops@.len(),
                (self@, out@) == values_of(sc@, old(self)@, s@, ops@.take(i as int)),
            decreases ops@.len() - i,
        {
            assert(ops@.take(i + 1).drop_last() =~= ops@.take(i as int));
            assert(ops@.take(i + 1).last() == ops@[i as int]);
            let v = self.eval_value(sc, &ops[i], s);
            out.push(v);
            i += 1;
        }
        assert(ops@.take(ops@.len() as int) =~= ops@);
        out
    }

    /// A comparison.
    pub fn eval_ptr_aware_cmp(
        &mut self,
        sc: &Scene,
        op: CmpOp,
        lhs: &Operand,
        rhs: &Operand,
        s: &PathState,
    ) -> (e: Ex)
        ensures
            (final(self)@, e) == compared(sc@, old(self)@, s@, op, *lhs, *rhs),
    {
        let x = self.eval_value(sc, lhs, s);
        let y = self.eval_value(sc, rhs, s);
        if let (SymValue::Ptr(p), SymValue::Ptr(q)) = (&x, &y) {
            if let (Prov::Region(a), Prov::Region(b)) = (&p.prov, &q.prov) {
                if *a == *b {
                    return mk_rel(map_cmpop(op), &p.offset, &q.offset);
                }
            }
        }
        let a = self.scalarize(x);
        let b = self.scalarize(y);
        mk_rel(map_cmpop(op), &a, &b)
    }

    fn eval_extended(&mut self, sc: &Scene, op: &Operand, s: &PathState) -> (v: SymValue)
        ensures
            (final(self)@, v) == extended(sc@, old(self)@, s@, *op),
    {
        match self.eval_value(sc, op, s) {
            SymValue::Scalar(e) => SymValue::Scalar(e),
            SymValue::Ptr(_) => SymValue::Scalar(self.fresh_scalar(PTR_WIDTH)),
        }
    }

    /// The value of a right side.
    pub fn eval_rvalue(&mut self, sc: &Scene, rv: &RValue, s: &PathState) -> (v: SymValue)
        ensures
            (final(self)@, v) == rvalue_of(sc@, old(self)@, s@, *rv),
    {
        match rv {
            RValue::Use(op) => self.eval_value(sc, op, s),
            RValue::Bin { op, lhs, rhs } => {
                let a = self.eval_scalar(sc, lhs, s);
                let b = self.eval_scalar(sc, rhs, s);
                SymValue::Scalar(mk_bin(map_binop(*op), &a, &b))
            },
            RValue::Cmp { op, lhs, rhs } => SymValue::Scalar(
                self.eval_ptr_aware_cmp(sc, *op, lhs, rhs, s),
            ),
            RValue::Cast { op, operand, .. } => match op {
                CastOp::Bitcast => self.eval_value(sc, operand, s),
                CastOp::IntToPtr => SymValue::Ptr(mk_untracked(POrigin::IntToPtr)),
                CastOp::ZExt => self.eval_extended(sc, operand, s),
                CastOp::SExt => self.eval_extended(sc, operand, s),
                CastOp::Trunc => SymValue::Scalar(self.fresh_scalar(PTR_WIDTH)),
                CastOp::PtrToInt => SymValue::Scalar(self.fresh_scalar(PTR_WIDTH)),
            },
            RValue::Select { cond, on_true, on_false } => {
                let d = self.eval_scalar(sc, cond, s);
                let a = self.eval_value(sc, on_true, s);
                let b = self.eval_value(sc, on_false, s);
                self.select(&d, a, b, &Type::Int { bits: 64 })
            },
        }
    }

    /// A checked condition as an expression.
    pub fn eval_condition(&mut self, sc: &Scene, c: &Condition, s: &PathState) -> (e: Ex)
        ensures
            (final(self)@, e) == condition_of(sc@, old(self)@, s@, *c),
        decreases c,
    {
        match c {
            Condition::True => mk_bool(true),
            Condition::Cmp { op, lhs, rhs } => self.eval_ptr_aware_cmp(sc, *op, lhs, rhs, s),
            Condition::And(a, b) => {
                let x = self.eval_condition(sc, a, s);
                let y = self.eval_condition(sc, b, s);
                Rc::new(Expr::And(x, y))
            },
            Condition::Or(a, b) => {
                let x = self.eval_condition(sc, a, s);
                let y = self.eval_condition(sc, b, s);
                Rc::new(Expr::Or(x, y))
            },
            Condition::Not(a) => {
                let x = self.eval_condition(sc, a, s);
                mk_not(&x)
            },
        }
    }

    fn eval_argument(&mut self, args: &Vec<SymValue>, k: usize) -> (e: Ex)
        ensures
            (final(self)@, e) == argument(old(self)@, args@, k as int),
    {
        if k < args.len() {
            if let SymValue::Scalar(e) = &args[k] {
                return e.clone();
            }
        }
        self.fresh_scalar(PTR_WIDTH)
    }

    /// An affine form of arguments as an expression.
    pub fn instantiate_affine(&mut self, a: &Affine, args: &Vec<SymValue>) -> (e: Ex)
        ensures
            (final(self)@, e) == affine_of(old(self)@, a@, args@),
    {
        let ks = a.params();
        let ghost order = params_in(a@.terms);
        let mut acc = const_expr(a.constant);
        let mut i: usize = 0;
        while i < ks.len()
            invariant
                i <= ks@.len(),
                crate::sorted::numbers(ks@) == order,
                order == params_in(a@.terms),
                forall|j: int| 0 <= j < ks@.len() ==> a@.terms.contains_key(#[trigger] ks@[j]),
                (self@, acc) == affine_sum(old(self)@, a@, args@, i as int),
            decreases ks@.len() - i,
        {
            let k: usize = ks[i];
            assert(order[i as int] == k);
            assert(a@.terms.contains_key(ks@[i as int]));
            let x = self.eval_argument(args, k);
            let coeff: i128 = a.coefficient(k);
            let term = mk_bin(BvOp::Mul, &x, &const_expr(coeff));
            acc = mk_bin(BvOp::Add, &acc, &term);
            i += 1;
        }
        assert(order.len() == ks@.len());
        acc
    }

    /// A pointer at an affine offset from an argument.
    pub fn instantiate_ptr(
        &mut self,
        arg: usize,
        offset: &Affine,
        args: &Vec<SymValue>,
        ty: &Type,
    ) -> (v: SymValue)
        ensures
            (final(self)@, v) == offset_argument(old(self)@, arg, offset@, args@, *ty),
    {
        if arg < args.len() {
            if let SymValue::Ptr(base) = &args[arg] {
                let delta = self.instantiate_affine(offset, args);
                return SymValue::Ptr(
                    SymPointer {
                        prov: base.prov.copy(),
                        offset: mk_bin(BvOp::Add, &base.offset, &delta),
                        align: base.align,
                    },
                );
            }
        }
        self.fresh_value(ty, POrigin::Call)
    }
}

} // verus!
