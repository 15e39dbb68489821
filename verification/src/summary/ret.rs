//! What a function returns: an abstract evaluation of its body over the parameters.
//!
//! Instruction results are recomputed in each pass; block parameters are joined over
//! the branch arguments seen so far. A value on which paths disagree is opaque, so a
//! summary says what every path computes.

use crate::affine::{fits, Affine, AffineView};
use crate::ir::{
    stride_of, BasicBlock, BinOp, BlockId, Const, Function, Inst, Operand, RValue, RegId,
    Terminator, Type,
};
use crate::summary::{RetSummary, RetView};
use std::collections::HashMap;
use vstd::prelude::*;

verus! {

broadcast use vstd::std_specs::hash::group_hash_axioms;

// ---- affine arithmetic as functions ----

/// The sum of two forms, unless something overflows.
pub open spec fn form_sum(a: AffineView, b: AffineView) -> Option<AffineView> {
    if !fits(a.constant + b.constant) || exists|k: usize|
        b.terms.contains_key(k) && !fits(#[trigger] a.coeff(k) + b.coeff(k)) {
        None
    } else {
        Some(
            AffineView {
                constant: (a.constant + b.constant) as i128,
                terms: Map::new(
                    |k: usize|
                        (a.terms.contains_key(k) || b.terms.contains_key(k)) && a.coeff(k)
                            + b.coeff(k) != 0,
                    |k: usize| (a.coeff(k) + b.coeff(k)) as i128,
                ),
            },
        )
    }
}

/// A form times a constant, unless something overflows.
pub open spec fn form_scaled(a: AffineView, c: i128) -> Option<AffineView> {
    if !fits(a.constant * c) || exists|k: usize|
        a.terms.contains_key(k) && !fits(#[trigger] a.coeff(k) * c) {
        None
    } else {
        Some(
            AffineView {
                constant: (a.constant * c) as i128,
                terms: Map::new(
                    |k: usize| a.terms.contains_key(k) && a.coeff(k) * c != 0,
                    |k: usize| (a.coeff(k) * c) as i128,
                ),
            },
        )
    }
}

proof fn lemma_form_sum(a: AffineView, b: AffineView, r: Option<AffineView>)
    requires
        match r {
            Some(s) => s.is_sum(a, b),
            None => !fits(a.constant + b.constant) || exists|k: usize|
                b.terms.contains_key(k) && !fits(#[trigger] a.coeff(k) + b.coeff(k)),
        },
    ensures
        r == form_sum(a, b),
{
    if let Some(s) = r {
        assert forall|k: usize| b.terms.contains_key(k) implies fits(
            #[trigger] a.coeff(k) + b.coeff(k),
        ) by {
            assert(s.coeff(k) == a.coeff(k) + b.coeff(k));
        }
        let t = form_sum(a, b)->0;
        assert(s.terms =~= t.terms) by {
            assert forall|k: usize| s.terms.contains_key(k) <==> t.terms.contains_key(k) by {
                assert(s.coeff(k) == a.coeff(k) + b.coeff(k));
            }
            assert forall|k: usize| s.terms.contains_key(k) implies s.terms[k] == t.terms[k] by {
                assert(s.coeff(k) == a.coeff(k) + b.coeff(k));
            }
        }
    }
}

proof fn lemma_form_scaled(a: AffineView, c: i128, r: Option<AffineView>)
    requires
        match r {
            Some(s) => s.is_multiple(a, c),
            None => !fits(a.constant * c) || exists|k: usize|
                a.terms.contains_key(k) && !fits(#[trigger] a.coeff(k) * c),
        },
    ensures
        r == form_scaled(a, c),
{
    if let Some(s) = r {
        assert forall|k: usize| a.terms.contains_key(k) implies fits(#[trigger] a.coeff(k) * c) by {
            assert(s.coeff(k) == a.coeff(k) * c);
        }
        let t = form_scaled(a, c)->0;
        assert(s.terms =~= t.terms) by {
            assert forall|k: usize| s.terms.contains_key(k) <==> t.terms.contains_key(k) by {
                assert(s.coeff(k) == a.coeff(k) * c);
                if !a.terms.contains_key(k) {
                    assert(a.coeff(k) * c == 0) by (nonlinear_arith)
                        requires
                            a.coeff(k) == 0,
                    ;
                }
            }
            assert forall|k: usize| s.terms.contains_key(k) implies s.terms[k] == t.terms[k] by {
                assert(s.coeff(k) == a.coeff(k) * c);
            }
        }
    }
}

fn sum_of(a: &Affine, b: &Affine) -> (r: Option<Affine>)
    ensures
        match r {
            Some(s) => form_sum(a@, b@) == Some(s@),
            None => form_sum(a@, b@) is None,
        },
{
    let r = a.add(b);
    proof {
        let v = match &r {
            Some(s) => Some(s@),
            None => None,
        };
        lemma_form_sum(a@, b@, v);
    }
    r
}

fn scaled(a: &Affine, c: i128) -> (r: Option<Affine>)
    ensures
        match r {
            Some(s) => form_scaled(a@, c) == Some(s@),
            None => form_scaled(a@, c) is None,
        },
{
    let r = a.scale(c);
    proof {
        let v = match &r {
            Some(s) => Some(s@),
            None => None,
        };
        lemma_form_scaled(a@, c, v);
    }
    r
}

// ---- abstract values ----

/// The abstract value of a register.
pub enum AbsVal {
    /// Parameter `arg`'s pointer, offset by `off` bytes.
    PtrArg { arg: usize, off: Affine },
    Scalar(Affine),
    Opaque,
}

/// An abstract value as a mathematical value.
pub enum AbsView {
    PtrArg(usize, AffineView),
    Scalar(AffineView),
    Opaque,
}

impl View for AbsVal {
    type V = AbsView;

    open spec fn view(&self) -> AbsView {
        match self {
            AbsVal::PtrArg { arg, off } => AbsView::PtrArg(*arg, off@),
            AbsVal::Scalar(a) => AbsView::Scalar(a@),
            AbsVal::Opaque => AbsView::Opaque,
        }
    }
}

/// Equal values pass; a disagreement is opaque.
pub open spec fn joined(a: AbsView, b: AbsView) -> AbsView {
    if a == b {
        a
    } else {
        AbsView::Opaque
    }
}

/// The join is commutative, idempotent, and takes the opaque value to itself.
pub proof fn join_laws(a: AbsView, b: AbsView)
    ensures
        joined(a, b) == joined(b, a),
        joined(a, a) == a,
        joined(a, AbsView::Opaque) == AbsView::Opaque,
{
}

impl AbsVal {
    fn copy(&self) -> (r: AbsVal)
        ensures
            r@ == self@,
    {
        match self {
            AbsVal::PtrArg { arg, off } => AbsVal::PtrArg { arg: *arg, off: off.copy() },
            AbsVal::Scalar(a) => AbsVal::Scalar(a.copy()),
            AbsVal::Opaque => AbsVal::Opaque,
        }
    }

    fn same(&self, o: &AbsVal) -> (r: bool)
        ensures
            r == (self@ == o@),
    {
        match (self, o) {
            (AbsVal::PtrArg { arg: a, off: x }, AbsVal::PtrArg { arg: b, off: y }) => *a == *b
                && x.same(y),
            (AbsVal::Scalar(x), AbsVal::Scalar(y)) => x.same(y),
            (AbsVal::Opaque, AbsVal::Opaque) => true,
            _ => false,
        }
    }

    /// The join of two abstract values.
    pub fn join(&self, o: &AbsVal) -> (r: AbsVal)
        ensures
            r@ == joined(self@, o@),
    {
        if self.same(o) {
            self.copy()
        } else {
            AbsVal::Opaque
        }
    }
}

/// The abstract values of the registers.
pub open spec fn env_view(m: Map<u32, AbsVal>) -> Map<u32, AbsView> {
    m.map_values(|v: AbsVal| v@)
}

proof fn lemma_env_insert(m: Map<u32, AbsVal>, k: u32, v: AbsVal)
    ensures
        env_view(m.insert(k, v)) == env_view(m).insert(k, v@),
{
    assert(env_view(m.insert(k, v)) =~= env_view(m).insert(k, v@));
}

/// The bits as a signed number of 128 bits.
pub open spec fn as_signed(bits: u128) -> i128 {
    if bits <= i128::MAX {
        bits as i128
    } else {
        (bits - 0x1_0000_0000_0000_0000_0000_0000_0000_0000) as i128
    }
}

fn signed_bits(bits: u128) -> (r: i128)
    ensures
        r == as_signed(bits),
{
    if bits <= 0x7fff_ffff_ffff_ffff_ffff_ffff_ffff_ffff {
        bits as i128
    } else {
        -((u128::MAX - bits) as i128) - 1
    }
}

/// The constant form.
pub open spec fn constant_form(c: i128) -> AffineView {
    AffineView { constant: c, terms: Map::empty() }
}

/// The value of an operand.
pub open spec fn operand_value(op: Operand, env: Map<u32, AbsView>) -> AbsView {
    match op {
        Operand::Reg(r) => if env.contains_key(r.0) {
            env[r.0]
        } else {
            AbsView::Opaque
        },
        Operand::Const(Const::Int(bv)) => AbsView::Scalar(constant_form(as_signed(bv.bits))),
        _ => AbsView::Opaque,
    }
}

/// The value of an operand.
fn eval_operand(op: &Operand, env: &HashMap<u32, AbsVal>) -> (r: AbsVal)
    ensures
        r@ == operand_value(*op, env_view(env@)),
{
    match op {
        Operand::Reg(r) => match env.get(&r.0) {
            Some(v) => v.copy(),
            None => AbsVal::Opaque,
        },
        Operand::Const(c) => match c {
            Const::Int(bv) => AbsVal::Scalar(Affine::constant(signed_bits(bv.unsigned()))),
            _ => AbsVal::Opaque,
        },
    }
}

/// A form that no parameter occurs in.
pub open spec fn constant_of(a: AffineView) -> Option<i128> {
    if a.terms.dom().len() == 0 {
        Some(a.constant)
    } else {
        None
    }
}

/// The result of an operation on two scalars.
pub open spec fn scalar_result(op: BinOp, a: AffineView, b: AffineView) -> AbsView {
    let r = match op {
        BinOp::Add => form_sum(a, b),
        BinOp::Sub => match form_scaled(b, -1i128) {
            Some(n) => form_sum(a, n),
            None => None,
        },
        BinOp::Mul => match (constant_of(a), constant_of(b)) {
            (Some(c), _) => form_scaled(b, c),
            (_, Some(c)) => form_scaled(a, c),
            _ => None,
        },
        _ => None,
    };
    match r {
        Some(s) => AbsView::Scalar(s),
        None => AbsView::Opaque,
    }
}

/// The value of a computed value.
pub open spec fn rvalue_value(rv: RValue, env: Map<u32, AbsView>) -> AbsView {
    match rv {
        RValue::Use(op) => operand_value(op, env),
        RValue::Bin { op, lhs, rhs } => match (operand_value(lhs, env), operand_value(rhs, env)) {
            (AbsView::Scalar(a), AbsView::Scalar(b)) => scalar_result(op, a, b),
            _ => AbsView::Opaque,
        },
        _ => AbsView::Opaque,
    }
}

/// The value of a computed value.
fn eval_rvalue(rv: &RValue, env: &HashMap<u32, AbsVal>) -> (r: AbsVal)
    ensures
        r@ == rvalue_value(*rv, env_view(env@)),
{
    match rv {
        RValue::Use(op) => eval_operand(op, env),
        RValue::Bin { op, lhs, rhs } => {
            let x = eval_operand(lhs, env);
            let y = eval_operand(rhs, env);
            match (&x, &y) {
                (AbsVal::Scalar(a), AbsVal::Scalar(b)) => {
                    let r: Option<Affine> = match op {
                        BinOp::Add => sum_of(a, b),
                        BinOp::Sub => match scaled(b, -1) {
                            Some(n) => sum_of(a, &n),
                            None => None,
                        },
                        BinOp::Mul => match a.as_const() {
                            Some(c) => scaled(b, c),
                            None => match b.as_const() {
                                Some(c) => scaled(a, c),
                                None => None,
                            },
                        },
                        _ => None,
                    };
                    match r {
                        Some(s) => AbsVal::Scalar(s),
                        None => AbsVal::Opaque,
                    }
                },
                _ => AbsVal::Opaque,
            }
        },
        _ => AbsVal::Opaque,
    }
}

/// The stride that an element type gives a pointer offset; 1 where it does not fit.
pub open spec fn offset_stride(elem: Type) -> int {
    if stride_of(elem) <= u64::MAX {
        stride_of(elem)
    } else {
        1
    }
}

/// The register that an instruction sets, with its value.
pub open spec fn inst_value(inst: Inst, env: Map<u32, AbsView>) -> Option<(u32, AbsView)> {
    match inst {
        Inst::Assign { dst, value, .. } => Some((dst.0, rvalue_value(value, env))),
        Inst::PtrOffset { dst, base, index, elem } => {
            let v = match (operand_value(base, env), operand_value(index, env)) {
                (AbsView::PtrArg(arg, off), AbsView::Scalar(ix)) => match form_scaled(
                    ix,
                    offset_stride(elem) as i128,
                ) {
                    Some(t) => match form_sum(off, t) {
                        Some(o) => AbsView::PtrArg(arg, o),
                        None => AbsView::Opaque,
                    },
                    None => AbsView::Opaque,
                },
                _ => AbsView::Opaque,
            };
            Some((dst.0, v))
        },
        other => match crate::ir::defined(other) {
            Some(r) => Some((r.0, AbsView::Opaque)),
            None => None,
        },
    }
}

fn eval_inst(inst: &Inst, env: &HashMap<u32, AbsVal>) -> (r: Option<(u32, AbsVal)>)
    ensures
        match r {
            Some((d, v)) => inst_value(*inst, env_view(env@)) == Some((d, v@)),
            None => inst_value(*inst, env_view(env@)) is None,
        },
{
    match inst {
        Inst::Assign { dst, value, .. } => Some((dst.0, eval_rvalue(value, env))),
        Inst::PtrOffset { dst, base, index, elem } => {
            let stride: i128 = match elem.stride_bytes() {
                Some(s) => s as i128,
                None => 1,
            };
            let b = eval_operand(base, env);
            let ix = eval_operand(index, env);
            let v = match (&b, &ix) {
                (AbsVal::PtrArg { arg, off }, AbsVal::Scalar(i)) => match scaled(i, stride) {
                    Some(t) => match sum_of(off, &t) {
                        Some(o) => AbsVal::PtrArg { arg: *arg, off: o },
                        None => AbsVal::Opaque,
                    },
                    None => AbsVal::Opaque,
                },
                _ => AbsVal::Opaque,
            };
            Some((dst.0, v))
        },
        _ => match inst.defined_reg() {
            Some(r) => Some((r.0, AbsVal::Opaque)),
            None => None,
        },
    }
}

// ---- passes over the body ----

/// The state of the evaluation: the registers' values, the joins at block parameters,
/// and whether this pass has changed anything.
pub struct RetState {
    pub env: Map<u32, AbsView>,
    pub joins: Map<u32, AbsView>,
    pub changed: bool,
}

/// `m` maps `k` to `v`.
pub open spec fn holds(m: Map<u32, AbsView>, k: u32, v: AbsView) -> bool {
    m.contains_key(k) && m[k] == v
}

/// Set a register, noting a change.
pub open spec fn set_env(st: RetState, k: u32, v: AbsView) -> RetState {
    if holds(st.env, k, v) {
        st
    } else {
        RetState { env: st.env.insert(k, v), changed: true, ..st }
    }
}

/// Set a join, noting a change.
pub open spec fn set_join(st: RetState, k: u32, v: AbsView) -> RetState {
    if holds(st.joins, k, v) {
        st
    } else {
        RetState { joins: st.joins.insert(k, v), changed: true, ..st }
    }
}

/// Bind block parameters to what was joined for them.
pub open spec fn bind_params(params: Seq<(RegId, Type)>, st: RetState) -> RetState
    decreases params.len(),
{
    if params.len() == 0 {
        st
    } else {
        let prior = bind_params(params.drop_last(), st);
        let r = (params.last().0).0;
        if prior.joins.contains_key(r) {
            set_env(prior, r, prior.joins[r])
        } else {
            prior
        }
    }
}

/// Run the instructions of a block.
pub open spec fn run_insts(insts: Seq<Inst>, st: RetState) -> RetState
    decreases insts.len(),
{
    if insts.len() == 0 {
        st
    } else {
        let prior = run_insts(insts.drop_last(), st);
        match inst_value(insts.last(), prior.env) {
            Some((d, v)) => set_env(prior, d, v),
            None => prior,
        }
    }
}

/// Join the first `n` branch arguments into the parameters of the target.
pub open spec fn feed(
    params: Seq<(RegId, Type)>,
    args: Seq<Operand>,
    n: nat,
    st: RetState,
) -> RetState
    decreases n,
{
    if n == 0 {
        st
    } else {
        let prior = feed(params, args, (n - 1) as nat, st);
        let r = (params[n - 1].0).0;
        let v = operand_value(args[n - 1], prior.env);
        set_join(
            prior,
            r,
            if prior.joins.contains_key(r) {
                joined(prior.joins[r], v)
            } else {
                v
            },
        )
    }
}

/// The last block with this id.
pub open spec fn block_index(blocks: Seq<BasicBlock>, id: BlockId) -> Option<int>
    decreases blocks.len(),
{
    if blocks.len() == 0 {
        None
    } else if blocks.last().id == id {
        Some(blocks.len() - 1)
    } else {
        block_index(blocks.drop_last(), id)
    }
}

/// Join branch arguments into the target block, if there is one.
pub open spec fn feed_target(
    blocks: Seq<BasicBlock>,
    target: BlockId,
    args: Seq<Operand>,
    st: RetState,
) -> RetState {
    match block_index(blocks, target) {
        None => st,
        Some(i) => {
            let params = blocks[i].params@;
            let n = if params.len() < args.len() {
                params.len()
            } else {
                args.len()
            };
            feed(params, args, n, st)
        },
    }
}

/// Pass branch arguments on to the successors.
pub open spec fn run_term(blocks: Seq<BasicBlock>, term: Terminator, st: RetState) -> RetState {
    match term {
        Terminator::Br { target, args } => feed_target(blocks, target, args@, st),
        Terminator::CondBr { then_blk, then_args, else_blk, else_args, .. } => feed_target(
            blocks,
            else_blk,
            else_args@,
            feed_target(blocks, then_blk, then_args@, st),
        ),
        _ => st,
    }
}

/// Run one block.
pub open spec fn run_block(blocks: Seq<BasicBlock>, b: BasicBlock, st: RetState) -> RetState {
    run_term(blocks, b.term, run_insts(b.insts@, bind_params(b.params@, st)))
}

/// Run the first `n` blocks.
pub open spec fn run_blocks(blocks: Seq<BasicBlock>, n: nat, st: RetState) -> RetState
    decreases n,
{
    if n == 0 {
        st
    } else {
        run_block(blocks, blocks[n - 1], run_blocks(blocks, (n - 1) as nat, st))
    }
}

/// The join of what the first `n` blocks return.
pub open spec fn returned(
    blocks: Seq<BasicBlock>,
    n: nat,
    env: Map<u32, AbsView>,
) -> Option<AbsView>
    decreases n,
{
    if n == 0 {
        None
    } else {
        let prior = returned(blocks, (n - 1) as nat, env);
        match blocks[n - 1].term {
            Terminator::Return(Some(op)) => {
                let v = operand_value(op, env);
                match prior {
                    Some(p) => Some(joined(p, v)),
                    None => Some(v),
                }
            },
            _ => prior,
        }
    }
}

/// A joined return value as a summary.
pub open spec fn as_ret(v: Option<AbsView>) -> RetView {
    match v {
        Some(AbsView::PtrArg(arg, off)) => RetView::PtrFromArg(arg, off),
        Some(AbsView::Scalar(a)) => RetView::Scalar(a),
        _ => RetView::Unknown,
    }
}

/// Pass over the body until nothing changes, at most `passes` times.
pub open spec fn ret_within(
    blocks: Seq<BasicBlock>,
    env: Map<u32, AbsView>,
    joins: Map<u32, AbsView>,
    passes: nat,
) -> RetView
    decreases passes,
{
    if passes == 0 {
        RetView::Unknown
    } else {
        let st = run_blocks(blocks, blocks.len(), RetState { env, joins, changed: false });
        if st.changed {
            ret_within(blocks, st.env, st.joins, (passes - 1) as nat)
        } else {
            as_ret(returned(blocks, blocks.len(), st.env))
        }
    }
}

/// What the parameters hold at the call.
pub open spec fn param_values(params: Seq<(RegId, Type)>) -> Map<u32, AbsView>
    decreases params.len(),
{
    if params.len() == 0 {
        Map::empty()
    } else {
        let k = (params.len() - 1) as usize;
        let v = if params.last().1 is Ptr {
            AbsView::PtrArg(k, constant_form(0))
        } else {
            AbsView::Scalar(AffineView { constant: 0, terms: Map::empty().insert(k, 1i128) })
        };
        param_values(params.drop_last()).insert((params.last().0).0, v)
    }
}

/// What a function returns.
pub open spec fn ret_summary(f: Function) -> RetView {
    let seed = param_values(f.params@);
    ret_within(f.blocks@, seed, seed, 64)
}

/// The evaluation in progress.
struct Evaluation {
    env: HashMap<u32, AbsVal>,
    joins: HashMap<u32, AbsVal>,
    changed: bool,
}

impl Evaluation {
    spec fn state(&self) -> RetState {
        RetState {
            env: env_view(self.env@),
            joins: env_view(self.joins@),
            changed: self.changed,
        }
    }

    fn set_env(&mut self, k: u32, v: AbsVal)
        ensures
            final(self).state() == set_env(old(self).state(), k, v@),
    {
        let same = match self.env.get(&k) {
            Some(x) => x.same(&v),
            None => false,
        };
        if !same {
            proof {
                lemma_env_insert(self.env@, k, v);
            }
            self.env.insert(k, v);
            self.changed = true;
        }
    }

    fn set_join(&mut self, k: u32, v: AbsVal)
        ensures
            final(self).state() == set_join(old(self).state(), k, v@),
    {
        let same = match self.joins.get(&k) {
            Some(x) => x.same(&v),
            None => false,
        };
        if !same {
            proof {
                lemma_env_insert(self.joins@, k, v);
            }
            self.joins.insert(k, v);
            self.changed = true;
        }
    }

    fn bind(&mut self, params: &Vec<(RegId, Type)>)
        ensures
            final(self).state() == bind_params(params@, old(self).state()),
    {
        let mut k: usize = 0;
        assert(params@.take(0) =~= Seq::<(RegId, Type)>::empty());
        while k < params.len()
            invariant
                k <= params@.len(),
                self.state() == bind_params(params@.take(k as int), old(self).state()),
            decreases params@.len() - k,
        {
            assert(params@.take(k + 1).drop_last() =~= params@.take(k as int));
            let reg: RegId = params[k].0;
            let found: Option<AbsVal> = match self.joins.get(&reg.0) {
                Some(v) => Some(v.copy()),
                None => None,
            };
            if let Some(v) = found {
                self.set_env(reg.0, v);
            }
            k += 1;
        }
        assert(params@.take(params@.len() as int) =~= params@);
    }

    fn run(&mut self, insts: &Vec<Inst>)
        ensures
            final(self).state() == run_insts(insts@, old(self).state()),
    {
        let mut k: usize = 0;
        assert(insts@.take(0) =~= Seq::<Inst>::empty());
        while k < insts.len()
            invariant
                k <= insts@.len(),
                self.state() == run_insts(insts@.take(k as int), old(self).state()),
            decreases insts@.len() - k,
        {
            assert(insts@.take(k + 1).drop_last() =~= insts@.take(k as int));
            assert(insts@.take(k + 1).last() == insts@[k as int]);
            if let Some((d, v)) = eval_inst(&insts[k], &self.env) {
                self.set_env(d, v);
            }
            k += 1;
        }
        assert(insts@.take(insts@.len() as int) =~= insts@);
    }

    fn feed(&mut self, blocks: &Vec<BasicBlock>, target: BlockId, args: &Vec<Operand>)
        ensures
            final(self).state() == feed_target(blocks@, target, args@, old(self).state()),
    {
        match find_block(blocks, target) {
            None => {},
            Some(at) => {
                let params = &blocks[at].params;
                let n: usize = if params.len() < args.len() {
                    params.len()
                } else {
                    args.len()
                };
                let mut k: usize = 0;
                while k < n
                    invariant
                        k <= n,
                        n <= params@.len(),
                        n <= args@.len(),
                        self.state() == feed(params@, args@, k as nat, old(self).state()),
                    decreases n - k,
                {
                    let reg: RegId = params[k].0;
                    let v = eval_operand(&args[k], &self.env);
                    let j = match self.joins.get(&reg.0) {
                        Some(prior) => prior.join(&v),
                        None => v,
                    };
                    self.set_join(reg.0, j);
                    k += 1;
                }
            },
        }
    }

    fn finish(&mut self, blocks: &Vec<BasicBlock>, term: &Terminator)
        ensures
            final(self).state() == run_term(blocks@, *term, old(self).state()),
    {
        match term {
            Terminator::Br { target, args } => {
                self.feed(blocks, *target, args);
            },
            Terminator::CondBr { then_blk, then_args, else_blk, else_args, .. } => {
                self.feed(blocks, *then_blk, then_args);
                self.feed(blocks, *else_blk, else_args);
            },
            _ => {},
        }
    }

    fn pass(&mut self, blocks: &Vec<BasicBlock>)
        ensures
            final(self).state() == run_blocks(
                blocks@,
                blocks@.len(),
                RetState { changed: false, ..old(self).state() },
            ),
    {
        self.changed = false;
        let ghost start = self.state();
        let mut k: usize = 0;
        while k < blocks.len()
            invariant
                k <= blocks@.len(),
                self.state() == run_blocks(blocks@, k as nat, start),
            decreases blocks@.len() - k,
        {
            self.bind(&blocks[k].params);
            self.run(&blocks[k].insts);
            self.finish(blocks, &blocks[k].term);
            k += 1;
        }
    }
}

/// The position of the last block with this id.
pub fn find_block(blocks: &Vec<BasicBlock>, id: BlockId) -> (r: Option<usize>)
    ensures
        match r {
            Some(i) => block_index(blocks@, id) == Some(i as int) && i < blocks@.len()
                && blocks@[i as int].id == id,
            None => block_index(blocks@, id) is None,
        },
{
    let mut k: usize = blocks.len();
    assert(blocks@.take(k as int) =~= blocks@);
    while k > 0
        invariant
            k <= blocks@.len(),
            block_index(blocks@, id) == block_index(blocks@.take(k as int), id),
        decreases k,
    {
        k -= 1;
        assert(blocks@.take(k + 1).drop_last() =~= blocks@.take(k as int));
        if blocks[k].id == id {
            return Some(k);
        }
    }
    None
}

/// Characterize the return value across the whole control-flow graph.
pub fn ret_of_fn(f: &Function) -> (r: RetSummary)
    ensures
        r@ == ret_summary(*f),
{
    let mut ev = Evaluation { env: HashMap::new(), joins: HashMap::new(), changed: false };
    let mut k: usize = 0;
    assert(f.params@.take(0) =~= Seq::<(RegId, Type)>::empty());
    assert(env_view(ev.env@) =~= Map::empty());
    assert(env_view(ev.joins@) =~= Map::empty());
    while k < f.params.len()
        invariant
            k <= f.params@.len(),
            env_view(ev.env@) == param_values(f.params@.take(k as int)),
            env_view(ev.joins@) == param_values(f.params@.take(k as int)),
        decreases f.params@.len() - k,
    {
        assert(f.params@.take(k + 1).drop_last() =~= f.params@.take(k as int));
        let reg: RegId = f.params[k].0;
        let v = if f.params[k].1.is_ptr() {
            AbsVal::PtrArg { arg: k, off: Affine::constant(0) }
        } else {
            AbsVal::Scalar(Affine::param(k))
        };
        let w = v.copy();
        proof {
            lemma_env_insert(ev.env@, reg.0, v);
            lemma_env_insert(ev.joins@, reg.0, w);
        }
        ev.env.insert(reg.0, v);
        ev.joins.insert(reg.0, w);
        k += 1;
    }
    assert(f.params@.take(f.params@.len() as int) =~= f.params@);
    let mut left: u32 = 64;
    while left > 0
        invariant
            left <= 64,
            ret_summary(*f) == ret_within(
                f.blocks@,
                env_view(ev.env@),
                env_view(ev.joins@),
                left as nat,
            ),
        decreases left,
    {
        ev.pass(&f.blocks);
        if !ev.changed {
            return join_returns(f, &ev.env);
        }
        left -= 1;
    }
    RetSummary::Unknown
}

fn join_returns(f: &Function, env: &HashMap<u32, AbsVal>) -> (r: RetSummary)
    ensures
        r@ == as_ret(returned(f.blocks@, f.blocks@.len(), env_view(env@))),
{
    let mut ret: Option<AbsVal> = None;
    let mut k: usize = 0;
    while k < f.blocks.len()
        invariant
            k <= f.blocks@.len(),
            match ret {
                Some(v) => returned(f.blocks@, k as nat, env_view(env@)) == Some(v@),
                None => returned(f.blocks@, k as nat, env_view(env@)) is None,
            },
        decreases f.blocks@.len() - k,
    {
        match &f.blocks[k].term {
            Terminator::Return(Some(op)) => {
                let v = eval_operand(op, env);
                ret = match ret {
                    Some(p) => Some(p.join(&v)),
                    None => Some(v),
                };
            },
            _ => {},
        }
        k += 1;
    }
    match ret {
        Some(AbsVal::PtrArg { arg, off }) => RetSummary::PtrFromArg { arg, offset: off },
        Some(AbsVal::Scalar(a)) => RetSummary::Scalar(a),
        _ => RetSummary::Unknown,
    }
}

/// Where the joined return value is known, every return site returns it.
pub proof fn return_sites_agree(
    blocks: Seq<BasicBlock>,
    n: nat,
    env: Map<u32, AbsView>,
    v: AbsView,
    k: int,
)
    requires
        n <= blocks.len(),
        returned(blocks, n, env) == Some(v),
        v != AbsView::Opaque,
        0 <= k < n,
    ensures
        blocks[k].term matches Terminator::Return(Some(op)) ==> operand_value(op, env) == v,
    decreases n,
{
    if let Some(p) = returned(blocks, (n - 1) as nat, env) {
        if k < n - 1 {
            return_sites_agree(blocks, (n - 1) as nat, env, p, k);
        }
    } else if k < n - 1 {
        lemma_none_returned(blocks, (n - 1) as nat, env, k);
    }
}

proof fn lemma_none_returned(blocks: Seq<BasicBlock>, n: nat, env: Map<u32, AbsView>, k: int)
    requires
        n <= blocks.len(),
        returned(blocks, n, env) is None,
        0 <= k < n,
    ensures
        !(blocks[k].term matches Terminator::Return(Some(_))),
    decreases n,
{
    if k < n - 1 {
        lemma_none_returned(blocks, (n - 1) as nat, env, k);
    }
}

} // verus!
