//! Lowering MIR functions and modules.

use crate::error::{Error, ErrorView};
use crate::ir::{
    block_views, inst_views, span_text, span_texts, stride_or_one, BasicBlock, BlockId, BlockView, FuncId, Function,
    FunctionView, Inst, InstView, Module, PtrContract, RegId, SizeSpec, TermView, Terminator, Type,
};
use crate::llvm::lower::low_half;
use crate::llvm::module::{
    append_keyed, copy_pairs, function_views, keyed, pair_texts, recorded_in, Recorded,
};
use crate::mir::ast::{
    CalleeSpec, MBlock, MOperand, MRvalue, MStmt, MTerm, MType, MirBody, Place,
};
use crate::mir::emit::{block_id, Ctx};
use crate::mir::lower::{
    align32, block_at, ir_type, mtype_to_ir, pointee_align, pointee_bytes, pointee_size,
    statement, stmt_cost, term_cost, terminator, Env, State, NESTED_FIELD_BASE,
};
use crate::names::{lemma_table_push, table};
use crate::text::{chars_of, find_from, first_at};
use std::collections::HashMap;
use vstd::prelude::*;

verus! {

broadcast use vstd::std_specs::hash::group_hash_axioms;

// ---- blocks ----

/// Locations for `n` instructions, where those after the known ones have the location `x`.
pub open spec fn filled(spans: Seq<Option<Seq<char>>>, n: nat, x: Option<Seq<char>>) -> Seq<
    Option<Seq<char>>,
> {
    if n > spans.len() {
        spans + Seq::new((n - spans.len()) as nat, |i: int| x)
    } else {
        spans
    }
}

/// The state without its instructions.
pub open spec fn bare(s: State) -> State {
    State { out: Seq::empty(), ..s }
}

/// The state after the first `n` statements of a block, and the locations of the
/// instructions.
pub open spec fn body_of(env: Env, s: State, b: MBlock, n: int) -> (State, Seq<Option<Seq<char>>>)
    decreases n,
{
    if n <= 0 {
        (bare(s), Seq::empty())
    } else {
        let (s1, spans) = body_of(env, s, b, n - 1);
        let s2 = statement(env, s1, b.stmts@[n - 1]);
        (s2, filled(spans, s2.out.len(), span_text(b.stmt_spans@[n - 1])))
    }
}

/// The number of statements of a block: each has a location.
pub open spec fn stmt_count(b: MBlock) -> int {
    if b.stmts@.len() < b.stmt_spans@.len() {
        b.stmts@.len() as int
    } else {
        b.stmt_spans@.len() as int
    }
}

/// What a block becomes: each instruction has the location of its statement.
pub open spec fn block_of(env: Env, s: State, b: MBlock) -> (
    State,
    Result<BlockView, ErrorView>,
) {
    let (s1, spans) = body_of(env, s, b, stmt_count(b));
    match terminator(env, s1, b.term) {
        (s2, Err(e)) => (s2, Err(e)),
        (s2, Ok(term)) => (
            s2,
            Ok(
                BlockView {
                    id: block_at(b.id),
                    params: Seq::empty(),
                    insts: s2.out,
                    term,
                    spans: filled(spans, s2.out.len(), span_text(b.term_span)),
                },
            ),
        ),
    }
}

/// A bound on the registers that the first `n` statements use.
pub open spec fn stmts_cost(b: MBlock, n: int) -> nat
    decreases n,
{
    if n <= 0 {
        0
    } else {
        stmts_cost(b, n - 1) + stmt_cost(b.stmts@[n - 1])
    }
}

/// A bound on the registers that a block uses.
pub open spec fn block_cost(b: MBlock) -> nat {
    stmts_cost(b, stmt_count(b)) + term_cost(b.term)
}

fn fill(spans: &mut Vec<Option<String>>, n: usize, x: &Option<String>)
    ensures
        span_texts(final(spans)@) == filled(span_texts(old(spans)@), n as nat, span_text(*x)),
{
    let ghost start = span_texts(spans@);
    let ghost xt = span_text(*x);
    assert(start =~= filled(start, start.len(), xt));
    while spans.len() < n
        invariant
            xt == span_text(*x),
            span_texts(spans@) == filled(start, spans@.len(), xt),
            start.len() <= spans@.len(),
            spans@.len() <= n || spans@.len() == start.len(),
        decreases n - spans@.len(),
    {
        let ghost before = span_texts(spans@);
        let c: Option<String> = match x {
            Some(t) => Some(t.clone()),
            None => None,
        };
        spans.push(c);
        assert(span_texts(spans@) =~= before.push(xt));
        assert(span_texts(spans@) =~= filled(start, spans@.len(), xt));
    }
    proof {
        if n <= start.len() {
            assert(filled(start, n as nat, xt) =~= start);
        }
    }
}

proof fn lemma_stmts_cost(b: MBlock, k: int, n: int)
    requires
        0 <= k <= n,
    ensures
        stmts_cost(b, k) <= stmts_cost(b, n),
    decreases n,
{
    if k < n {
        lemma_stmts_cost(b, k, n - 1);
    }
}

impl<'a> Ctx<'a> {
    /// Lower a block.
    pub fn lower_block(&mut self, b: &MBlock) -> (r: Result<BasicBlock, Error>)
        requires
            old(self).room(block_cost(*b)),
        ensures
            bare(final(self).state()) == bare(
                block_of(old(self).env(), old(self).state(), *b).0,
            ),
            match r {
                Ok(bb) => block_of(old(self).env(), old(self).state(), *b).1 == Ok::<
                    BlockView,
                    ErrorView,
                >(bb@),
                Err(e) => block_of(old(self).env(), old(self).state(), *b).1 == Err::<
                    BlockView,
                    ErrorView,
                >(e@),
            },
            final(self).spent(*old(self), block_cost(*b)),
    {
        let ghost env = self.env();
        let ghost start = self.state();
        self.out = Vec::new();
        assert(inst_views(self.out@) =~= Seq::<InstView>::empty());
        let mut spans: Vec<Option<String>> = Vec::new();
        assert(span_texts(spans@) =~= Seq::<Option<Seq<char>>>::empty());
        let mut i: usize = 0;
        while i < b.stmts.len() && i < b.stmt_spans.len()
            invariant
                i <= b.stmts@.len(),
                i <= b.stmt_spans@.len(),
                env == old(self).env(),
                start == old(self).state(),
                (self.state(), span_texts(spans@)) == body_of(env, start, *b, i as int),
                self.spent(*old(self), stmts_cost(*b, i as int)),
                old(self).room(block_cost(*b)),
            decreases b.stmts@.len() - i,
        {
            proof {
                lemma_stmts_cost(*b, i + 1, stmt_count(*b));
            }
            self.lower_stmt(&b.stmts[i]);
            fill(&mut spans, self.out.len(), &b.stmt_spans[i]);
            assert(self.state().out.len() == self.out@.len());
            i += 1;
        }
        assert(i == stmt_count(*b));
        match self.lower_term(&b.term) {
            Err(e) => Err(e),
            Ok(term) => {
                fill(&mut spans, self.out.len(), &b.term_span);
                let mut insts: Vec<Inst> = Vec::new();
                let ghost done = self.state();
                assert(self.state().out.len() == self.out@.len());
                std::mem::swap(&mut insts, &mut self.out);
                let params: Vec<(RegId, Type)> = Vec::new();
                assert(params@ =~= Seq::<(RegId, Type)>::empty());
                let bb = BasicBlock { id: block_id(b.id), params, insts, inst_spans: spans, term };
                assert(bb@.insts == done.out);
                Ok(bb)
            },
        }
    }
}

// ---- signatures ----

/// What the parameters of a function become.
pub struct Signature {
    pub params: Seq<(RegId, Type)>,
    pub contracts: Seq<(u32, PtrContract)>,
    /// The slices: position, local, stride and whether they are mutable.
    pub slices: Seq<(u32, u32, u64, bool)>,
}

/// A contract of the given size and alignment.
pub open spec fn contract(size: SizeSpec, align: u32, writable: bool) -> PtrContract {
    PtrContract {
        assumption: None,
        refutable: true,
        size,
        align,
        readable: true,
        writable,
        sentinel: None,
    }
}

/// What a pointer parameter to `inner` adds to a signature.
pub open spec fn pointer_param(g: Signature, idx: u32, local: u32, inner: MType, writable: bool) -> Signature {
    let g1 = Signature {
        params: g.params.push(
            (RegId(local), Type::Ptr { pointee: Box::new(ir_type(inner)) }),
        ),
        ..g
    };
    match inner {
        MType::Slice(elem) => Signature {
            slices: g1.slices.push((idx, local, stride_or_one(ir_type(*elem)), writable)),
            ..g1
        },
        _ => match pointee_bytes(inner) {
            Some(n) => Signature {
                contracts: g1.contracts.push(
                    (idx, contract(SizeSpec::Bytes(n), align32(ir_type(inner)), writable)),
                ),
                ..g1
            },
            None => if inner is Other {
                Signature {
                    contracts: g1.contracts.push((idx, contract(SizeSpec::Opaque, 1, writable))),
                    ..g1
                }
            } else {
                g1
            },
        },
    }
}

/// What parameters become.
pub open spec fn signature(params: Seq<(u32, MType)>) -> Signature
    decreases params.len(),
{
    if params.len() == 0 {
        Signature { params: Seq::empty(), contracts: Seq::empty(), slices: Seq::empty() }
    } else {
        let g = signature(params.drop_last());
        let idx = (params.len() - 1) as u32;
        let (local, ty) = params.last();
        match ty {
            MType::Ref(inner, m) => pointer_param(g, idx, local, *inner, m),
            MType::Ptr(inner, m) => pointer_param(g, idx, local, *inner, m),
            _ => Signature { params: g.params.push((RegId(local), ir_type(ty))), ..g },
        }
    }
}

/// The signature with a length parameter for each of the first `n` slices, whose
/// registers count from `first` on.
pub open spec fn with_lengths(g: Signature, first: int, n: int) -> Signature
    decreases n,
{
    if n <= 0 {
        g
    } else {
        let h = with_lengths(g, first, n - 1);
        let (pos, local, stride, writable) = g.slices[n - 1];
        Signature {
            params: h.params.push((RegId((first + n - 1) as u32), Type::Int { bits: 64 })),
            contracts: h.contracts.push(
                (
                    pos,
                    contract(
                        SizeSpec::ParamElements {
                            len_param: h.params.len() as u32,
                            elem_size: stride,
                        },
                        low_half(stride),
                        writable,
                    ),
                ),
            ),
            ..h
        }
    }
}

/// The register that holds the length of each of the first `n` slices.
pub open spec fn lengths_of(g: Signature, first: int, n: int) -> Map<u32, u32>
    decreases n,
{
    if n <= 0 {
        Map::empty()
    } else {
        lengths_of(g, first, n - 1).insert(g.slices[n - 1].1, (first + n - 1) as u32)
    }
}

/// The declared type of each local; the last declaration counts.
pub open spec fn declared_types(decls: Seq<(u32, MType)>) -> Map<u32, MType>
    decreases decls.len(),
{
    if decls.len() == 0 {
        Map::empty()
    } else {
        declared_types(decls.drop_last()).insert(decls.last().0, decls.last().1)
    }
}

/// The locals of a place: its root and its indices.
pub open spec fn place_locals(p: Place) -> Seq<u32>
    decreases p,
{
    match p {
        Place::Local(n) => seq![n],
        Place::Deref(inner) => place_locals(*inner),
        Place::Field(inner, _, _) => place_locals(*inner),
        Place::ConstIndex(inner, _) => place_locals(*inner),
        Place::Index(inner, idx) => seq![idx] + place_locals(*inner),
    }
}

/// The locals of an operand.
pub open spec fn operand_locals(o: MOperand) -> Seq<u32> {
    match o {
        MOperand::Copy(p) => place_locals(p),
        MOperand::Move(p) => place_locals(p),
        MOperand::Const(_) => Seq::empty(),
    }
}

/// The locals of operands.
pub open spec fn operands_locals(s: Seq<MOperand>) -> Seq<u32>
    decreases s.len(),
{
    if s.len() == 0 {
        Seq::empty()
    } else {
        operands_locals(s.drop_last()) + operand_locals(s.last())
    }
}

/// The locals of a right side.
pub open spec fn rvalue_locals(v: MRvalue) -> Seq<u32> {
    match v {
        MRvalue::Use(o) => operand_locals(o),
        MRvalue::Bin(_, a, b) => operand_locals(a) + operand_locals(b),
        MRvalue::CheckedBin(_, a, b) => operand_locals(a) + operand_locals(b),
        MRvalue::Len(p) => place_locals(p),
        MRvalue::Ref(p) => place_locals(p),
        MRvalue::Cast(o) => operand_locals(o),
        MRvalue::Discriminant(p) => place_locals(p),
        MRvalue::Other => Seq::empty(),
    }
}

/// The locals of statements.
pub open spec fn stmts_locals(stmts: Seq<MStmt>) -> Seq<u32>
    decreases stmts.len(),
{
    if stmts.len() == 0 {
        Seq::empty()
    } else {
        let s = stmts_locals(stmts.drop_last());
        match stmts.last() {
            MStmt::Assign(p, v) => s + (place_locals(p) + rvalue_locals(v)),
            MStmt::Nop => s,
        }
    }
}

/// The local that a call goes through.
pub open spec fn callee_locals(c: CalleeSpec) -> Seq<u32> {
    match c {
        CalleeSpec::Named(_) => Seq::empty(),
        CalleeSpec::Indirect(l) => seq![l],
    }
}

/// The locals of a terminator.
pub open spec fn term_locals(t: MTerm) -> Seq<u32> {
    match t {
        MTerm::SwitchInt(o, _, _) => operand_locals(o),
        MTerm::Assert { cond, .. } => operand_locals(cond),
        MTerm::Call { dst, callee, args, .. } => (place_locals(dst) + callee_locals(callee))
            + operands_locals(args@),
        _ => Seq::empty(),
    }
}

/// The locals of parameters.
pub open spec fn param_locals(params: Seq<(u32, MType)>) -> Seq<u32> {
    Seq::new(params.len(), |i: int| params[i].0)
}

/// The locals that a block mentions.
pub open spec fn block_locals(b: MBlock) -> Seq<u32> {
    stmts_locals(b.stmts@) + term_locals(b.term)
}

/// The locals that blocks mention.
pub open spec fn blocks_locals(blocks: Seq<MBlock>) -> Seq<u32>
    decreases blocks.len(),
{
    if blocks.len() == 0 {
        Seq::empty()
    } else {
        blocks_locals(blocks.drop_last()) + block_locals(blocks.last())
    }
}

/// The locals that a function mentions: its parameters, the declared ones, and those of its
/// statements and terminators.
pub open spec fn body_locals(body: MirBody) -> Seq<u32> {
    (param_locals(body.params@) + param_locals(body.locals@)) + blocks_locals(body.blocks@)
}

/// The largest number, or 0.
pub open spec fn most(s: Seq<u32>) -> u32
    decreases s.len(),
{
    if s.len() == 0 {
        0
    } else if s.last() > most(s.drop_last()) {
        s.last()
    } else {
        most(s.drop_last())
    }
}

/// The numbers of blocks.
pub open spec fn block_numbers(blocks: Seq<MBlock>) -> Seq<u32> {
    Seq::new(blocks.len(), |i: int| block_at(blocks[i].id).0)
}

/// The first register after those of the locals.
pub open spec fn first_temp(body: MirBody) -> int {
    most(body_locals(body)) + 1
}

/// The block that failed assertions go to: one after the last block.
pub open spec fn panic_block(body: MirBody) -> int {
    most(block_numbers(body.blocks@)) + 1
}

// ---- functions ----

/// What does not change while a function is lowered.
pub open spec fn env_of(body: MirBody, ids: Map<Seq<char>, u32>) -> Env {
    Env {
        types: declared_types(body.params@ + body.locals@),
        func_ids: ids,
        panic_id: panic_block(body) as u32,
    }
}

/// The state before the first block.
pub open spec fn start_of(body: MirBody) -> State {
    let g = signature(body.params@);
    State {
        next: first_temp(body) + g.slices.len(),
        panics: false,
        failed: false,
        lengths: lengths_of(g, first_temp(body), g.slices.len() as int),
        checked: Map::empty(),
        paths: Seq::empty(),
        out: Seq::empty(),
    }
}

/// What blocks become.
pub open spec fn blocks_of(env: Env, s: State, blocks: Seq<MBlock>) -> (
    State,
    Result<Seq<BlockView>, ErrorView>,
)
    decreases blocks.len(),
{
    if blocks.len() == 0 {
        (s, Ok(Seq::empty()))
    } else {
        match blocks_of(env, s, blocks.drop_last()) {
            (s1, Err(e)) => (s1, Err(e)),
            (s1, Ok(bs)) => match block_of(env, s1, blocks.last()) {
                (s2, Err(e)) => (s2, Err(e)),
                (s2, Ok(b)) => (bare(s2), Ok(bs.push(b))),
            },
        }
    }
}

/// The block that failed assertions go to.
pub open spec fn landing_pad(id: u32) -> BlockView {
    BlockView {
        id: BlockId(id),
        params: Seq::empty(),
        insts: Seq::empty(),
        term: TermView::Unreachable,
        spans: Seq::empty(),
    }
}

/// What a function becomes, with its contracts.
pub open spec fn function_of(body: MirBody, id: FuncId, ids: Map<Seq<char>, u32>) -> Result<
    (FunctionView, Seq<(u32, PtrContract)>),
    ErrorView,
> {
    let g0 = signature(body.params@);
    let g = with_lengths(g0, first_temp(body), g0.slices.len() as int);
    match blocks_of(env_of(body, ids), start_of(body), body.blocks@) {
        (_, Err(e)) => Err(e),
        (s, Ok(blocks)) => if s.failed {
            Err(
                ErrorView::Unsupported(
                    "a memory access could not be lowered to a known pointer"@,
                ),
            )
        } else {
            Ok(
                (
                    FunctionView {
                        id,
                        name: body.name@,
                        params: g.params,
                        ret_ty: ir_type(body.ret),
                        blocks: if s.panics {
                            blocks.push(landing_pad(panic_block(body) as u32))
                        } else {
                            blocks
                        },
                        entry: BlockId(0),
                    },
                    g.contracts,
                ),
            )
        },
    }
}

/// A bound on the registers that blocks use.
pub open spec fn blocks_cost(blocks: Seq<MBlock>) -> nat
    decreases blocks.len(),
{
    if blocks.len() == 0 {
        0
    } else {
        blocks_cost(blocks.drop_last()) + block_cost(blocks.last())
    }
}

/// A function that can be lowered: registers, blocks and paths can be numbered.
pub open spec fn lowerable(body: MirBody) -> bool {
    &&& first_temp(body) + body.params@.len() + blocks_cost(body.blocks@) <= u32::MAX
    &&& NESTED_FIELD_BASE + blocks_cost(body.blocks@) <= u32::MAX
    &&& panic_block(body) <= u32::MAX
}

fn larger(a: u32, b: u32) -> (r: u32)
    ensures
        r == if b > a {
            b
        } else {
            a
        },
{
    if b > a {
        b
    } else {
        a
    }
}

proof fn lemma_most_push(s: Seq<u32>, x: u32)
    ensures
        most(s.push(x)) == if x > most(s) {
            x
        } else {
            most(s)
        },
{
    assert(s.push(x).drop_last() =~= s);
}

proof fn lemma_most_concat(a: Seq<u32>, b: Seq<u32>)
    ensures
        most(a + b) == if most(b) > most(a) {
            most(b)
        } else {
            most(a)
        },
    decreases b.len(),
{
    if b.len() == 0 {
        assert(a + b =~= a);
    } else {
        lemma_most_concat(a, b.drop_last());
        assert((a + b).drop_last() =~= a + b.drop_last());
    }
}

proof fn lemma_most_bounds(s: Seq<u32>, i: int)
    requires
        0 <= i < s.len(),
    ensures
        s[i] <= most(s),
    decreases s.len(),
{
    if i < s.len() - 1 {
        lemma_most_bounds(s.drop_last(), i);
    }
}

fn place_most(p: &Place) -> (m: u32)
    ensures
        m == most(place_locals(*p)),
    decreases p,
{
    match p {
        Place::Local(n) => {
            proof {
                lemma_most_push(Seq::empty(), *n);
                assert(seq![*n] =~= Seq::<u32>::empty().push(*n));
            }
            *n
        },
        Place::Deref(inner) => place_most(inner),
        Place::Field(inner, _, _) => place_most(inner),
        Place::ConstIndex(inner, _) => place_most(inner),
        Place::Index(inner, idx) => {
            proof {
                lemma_most_push(Seq::empty(), *idx);
                assert(seq![*idx] =~= Seq::<u32>::empty().push(*idx));
                lemma_most_concat(seq![*idx], place_locals(**inner));
            }
            larger(*idx, place_most(inner))
        },
    }
}

fn operand_most(o: &MOperand) -> (m: u32)
    ensures
        m == most(operand_locals(*o)),
{
    match o {
        MOperand::Copy(p) => place_most(p),
        MOperand::Move(p) => place_most(p),
        MOperand::Const(_) => 0,
    }
}

fn operands_most(s: &Vec<MOperand>) -> (m: u32)
    ensures
        m == most(operands_locals(s@)),
{
    let mut m: u32 = 0;
    let mut i: usize = 0;
    assert(s@.take(0) =~= Seq::<MOperand>::empty());
    while i < s.len()
        invariant
            i <= s@.len(),
            m == most(operands_locals(s@.take(i as int))),
        decreases s@.len() - i,
    {
        assert(s@.take(i + 1).drop_last() =~= s@.take(i as int));
        assert(s@.take(i + 1).last() == s@[i as int]);
        proof {
            lemma_most_concat(operands_locals(s@.take(i as int)), operand_locals(s@[i as int]));
        }
        m = larger(m, operand_most(&s[i]));
        i += 1;
    }
    assert(s@.take(s@.len() as int) =~= s@);
    m
}

fn two_most(a: &MOperand, b: &MOperand) -> (m: u32)
    ensures
        m == most(operand_locals(*a) + operand_locals(*b)),
{
    proof {
        lemma_most_concat(operand_locals(*a), operand_locals(*b));
    }
    larger(operand_most(a), operand_most(b))
}

fn rvalue_most(v: &MRvalue) -> (m: u32)
    ensures
        m == most(rvalue_locals(*v)),
{
    match v {
        MRvalue::Use(o) => operand_most(o),
        MRvalue::Bin(_, a, b) => two_most(a, b),
        MRvalue::CheckedBin(_, a, b) => two_most(a, b),
        MRvalue::Len(p) => place_most(p),
        MRvalue::Ref(p) => place_most(p),
        MRvalue::Cast(o) => operand_most(o),
        MRvalue::Discriminant(p) => place_most(p),
        MRvalue::Other => 0,
    }
}

fn stmts_most(stmts: &Vec<MStmt>) -> (m: u32)
    ensures
        m == most(stmts_locals(stmts@)),
{
    let mut m: u32 = 0;
    let mut i: usize = 0;
    assert(stmts@.take(0) =~= Seq::<MStmt>::empty());
    while i < stmts.len()
        invariant
            i <= stmts@.len(),
            m == most(stmts_locals(stmts@.take(i as int))),
        decreases stmts@.len() - i,
    {
        assert(stmts@.take(i + 1).drop_last() =~= stmts@.take(i as int));
        assert(stmts@.take(i + 1).last() == stmts@[i as int]);
        if let MStmt::Assign(p, v) = &stmts[i] {
            proof {
                lemma_most_concat(place_locals(*p), rvalue_locals(*v));
                lemma_most_concat(
                    stmts_locals(stmts@.take(i as int)),
                    place_locals(*p) + rvalue_locals(*v),
                );
            }
            m = larger(m, larger(place_most(p), rvalue_most(v)));
        }
        i += 1;
    }
    assert(stmts@.take(stmts@.len() as int) =~= stmts@);
    m
}

fn term_most(t: &MTerm) -> (m: u32)
    ensures
        m == most(term_locals(*t)),
{
    match t {
        MTerm::SwitchInt(o, _, _) => operand_most(o),
        MTerm::Assert { cond, .. } => operand_most(cond),
        MTerm::Call { dst, callee, args, .. } => {
            let through: u32 = match callee {
                CalleeSpec::Named(_) => 0,
                CalleeSpec::Indirect(l) => {
                    proof {
                        lemma_most_push(Seq::empty(), *l);
                        assert(seq![*l] =~= Seq::<u32>::empty().push(*l));
                    }
                    *l
                },
            };
            proof {
                lemma_most_concat(place_locals(*dst), callee_locals(*callee));
                lemma_most_concat(
                    place_locals(*dst) + callee_locals(*callee),
                    operands_locals(args@),
                );
            }
            larger(larger(place_most(dst), through), operands_most(args))
        },
        _ => 0,
    }
}

fn params_most(params: &Vec<(u32, MType)>) -> (m: u32)
    ensures
        m == most(param_locals(params@)),
{
    let mut m: u32 = 0;
    let mut i: usize = 0;
    let ghost ps = param_locals(params@);
    assert(ps.take(0) =~= Seq::<u32>::empty());
    while i < params.len()
        invariant
            i <= params@.len(),
            ps == param_locals(params@),
            m == most(ps.take(i as int)),
        decreases params@.len() - i,
    {
        assert(ps.take(i + 1) =~= ps.take(i as int).push(params@[i as int].0));
        proof {
            lemma_most_push(ps.take(i as int), params@[i as int].0);
        }
        m = larger(m, params[i].0);
        i += 1;
    }
    assert(ps.take(ps.len() as int) =~= ps);
    m
}

fn max_local(body: &MirBody) -> (m: u32)
    ensures
        m + 1 == first_temp(*body),
{
    let ghost ps = param_locals(body.params@) + param_locals(body.locals@);
    proof {
        lemma_most_concat(param_locals(body.params@), param_locals(body.locals@));
    }
    let mut m: u32 = larger(params_most(&body.params), params_most(&body.locals));
    let mut k: usize = 0;
    assert(body.blocks@.take(0) =~= Seq::<MBlock>::empty());
    assert(ps + blocks_locals(body.blocks@.take(0)) =~= ps);
    while k < body.blocks.len()
        invariant
            k <= body.blocks@.len(),
            m == most(ps + blocks_locals(body.blocks@.take(k as int))),
        decreases body.blocks@.len() - k,
    {
        assert(body.blocks@.take(k + 1).drop_last() =~= body.blocks@.take(k as int));
        proof {
            let b = body.blocks@[k as int];
            let before = ps + blocks_locals(body.blocks@.take(k as int));
            lemma_most_concat(stmts_locals(b.stmts@), term_locals(b.term));
            lemma_most_concat(before, block_locals(b));
            assert(before + block_locals(b) =~= ps + blocks_locals(body.blocks@.take(k + 1)));
        }
        let b = &body.blocks[k];
        m = larger(m, larger(stmts_most(&b.stmts), term_most(&b.term)));
        k += 1;
    }
    assert(body.blocks@.take(body.blocks@.len() as int) =~= body.blocks@);
    m
}

fn max_block(body: &MirBody) -> (m: u32)
    ensures
        m + 1 == panic_block(*body),
{
    let mut m: u32 = 0;
    let mut i: usize = 0;
    let ghost ns = block_numbers(body.blocks@);
    assert(ns.take(0) =~= Seq::<u32>::empty());
    while i < body.blocks.len()
        invariant
            i <= body.blocks@.len(),
            ns == block_numbers(body.blocks@),
            m == most(ns.take(i as int)),
        decreases body.blocks@.len() - i,
    {
        let n: u32 = block_id(body.blocks[i].id).0;
        assert(ns.take(i + 1) =~= ns.take(i as int).push(n));
        proof {
            lemma_most_push(ns.take(i as int), n);
        }
        m = larger(m, n);
        i += 1;
    }
    assert(ns.take(ns.len() as int) =~= ns);
    m
}

fn local_types(body: &MirBody) -> (r: HashMap<u32, MType>)
    ensures
        r@ == declared_types(body.params@ + body.locals@),
{
    let ghost all = body.params@ + body.locals@;
    let mut m: HashMap<u32, MType> = HashMap::new();
    let mut i: usize = 0;
    assert(all.take(0) =~= Seq::<(u32, MType)>::empty());
    while i < body.params.len()
        invariant
            i <= body.params@.len(),
            all == body.params@ + body.locals@,
            m@ == declared_types(all.take(i as int)),
        decreases body.params@.len() - i,
    {
        assert(all.take(i + 1).drop_last() =~= all.take(i as int));
        m.insert(body.params[i].0, body.params[i].1.copy());
        i += 1;
    }
    let mut k: usize = 0;
    while k < body.locals.len()
        invariant
            k <= body.locals@.len(),
            all == body.params@ + body.locals@,
            m@ == declared_types(all.take(body.params@.len() + k)),
        decreases body.locals@.len() - k,
    {
        assert(all.take(body.params@.len() + k + 1).drop_last() =~= all.take(
            body.params@.len() + k,
        ));
        m.insert(body.locals[k].0, body.locals[k].1.copy());
        k += 1;
    }
    assert(all.take(all.len() as int) =~= all);
    m
}

/// A signature in the making.
struct Parts {
    params: Vec<(RegId, Type)>,
    contracts: Vec<(u32, PtrContract)>,
    slices: Vec<(u32, u32, u64, bool)>,
}

impl View for Parts {
    type V = Signature;

    closed spec fn view(&self) -> Signature {
        Signature {
            params: self.params@,
            contracts: self.contracts@,
            slices: self.slices@,
        }
    }
}

fn make_contract(size: SizeSpec, align: u32, writable: bool) -> (c: PtrContract)
    ensures
        c == contract(size, align, writable),
{
    PtrContract {
        assumption: None,
        refutable: true,
        size,
        align,
        readable: true,
        writable,
        sentinel: None,
    }
}

fn add_pointer(g: &mut Parts, idx: u32, local: u32, inner: &MType, writable: bool)
    ensures
        final(g)@ == pointer_param(old(g)@, idx, local, *inner, writable),
{
    g.params.push((RegId(local), Type::ptr(mtype_to_ir(inner))));
    if let MType::Slice(elem) = inner {
        let stride: u64 = mtype_to_ir(elem).stride_or_one();
        g.slices.push((idx, local, stride, writable));
    } else if let Some(n) = pointee_size(inner) {
        g.contracts.push(
            (idx, make_contract(SizeSpec::Bytes(n), pointee_align(inner), writable)),
        );
    } else if let MType::Other = inner {
        g.contracts.push((idx, make_contract(SizeSpec::Opaque, 1, writable)));
    }
}

fn lower_signature(params: &Vec<(u32, MType)>) -> (g: Parts)
    requires
        params@.len() <= u32::MAX,
    ensures
        g@ == signature(params@),
        g@.slices.len() <= params@.len(),
        g@.params.len() == params@.len(),
{
    let mut g = Parts { params: Vec::new(), contracts: Vec::new(), slices: Vec::new() };
    let mut i: usize = 0;
    assert(params@.take(0) =~= Seq::<(u32, MType)>::empty());
    assert(g.params@ =~= Seq::<(RegId, Type)>::empty());
    assert(g.contracts@ =~= Seq::<(u32, PtrContract)>::empty());
    assert(g.slices@ =~= Seq::<(u32, u32, u64, bool)>::empty());
    while i < params.len()
        invariant
            i <= params@.len() <= u32::MAX,
            g@ == signature(params@.take(i as int)),
            g@.slices.len() <= i,
            g@.params.len() == i,
        decreases params@.len() - i,
    {
        assert(params@.take(i + 1).drop_last() =~= params@.take(i as int));
        assert(params@.take(i + 1).last() == params@[i as int]);
        let local: u32 = params[i].0;
        match &params[i].1 {
            MType::Ref(inner, m) => {
                add_pointer(&mut g, i as u32, local, inner, *m);
            },
            MType::Ptr(inner, m) => {
                add_pointer(&mut g, i as u32, local, inner, *m);
            },
            ty => {
                g.params.push((RegId(local), mtype_to_ir(ty)));
            },
        }
        i += 1;
    }
    assert(params@.take(params@.len() as int) =~= params@);
    g
}

proof fn lemma_with_lengths(g: Signature, first: int, n: int)
    requires
        0 <= n,
    ensures
        with_lengths(g, first, n).params.len() == g.params.len() + n,
        with_lengths(g, first, n).slices == g.slices,
    decreases n,
{
    if n > 0 {
        lemma_with_lengths(g, first, n - 1);
    }
}

proof fn lemma_blocks_stop(env: Env, s: State, blocks: Seq<MBlock>, k: int)
    requires
        0 <= k <= blocks.len(),
        blocks_of(env, s, blocks.take(k)).1 is Err,
    ensures
        blocks_of(env, s, blocks).1 == blocks_of(env, s, blocks.take(k)).1,
    decreases blocks.len(),
{
    if k == blocks.len() {
        assert(blocks.take(k) =~= blocks);
    } else {
        assert(blocks.drop_last().take(k) =~= blocks.take(k));
        lemma_blocks_stop(env, s, blocks.drop_last(), k);
    }
}

proof fn lemma_blocks_cost(blocks: Seq<MBlock>, k: int)
    requires
        0 <= k <= blocks.len(),
    ensures
        blocks_cost(blocks.take(k)) <= blocks_cost(blocks),
    decreases blocks.len(),
{
    if k == blocks.len() {
        assert(blocks.take(k) =~= blocks);
    } else {
        assert(blocks.drop_last().take(k) =~= blocks.take(k));
        lemma_blocks_cost(blocks.drop_last(), k);
    }
}

fn lower_blocks(ctx: &mut Ctx, blocks: &Vec<MBlock>) -> (r: Result<Vec<BasicBlock>, Error>)
    requires
        old(ctx).room(blocks_cost(blocks@)),
        old(ctx).out@.len() == 0,
    ensures
        match r {
            Ok(v) => {
                &&& blocks_of(old(ctx).env(), old(ctx).state(), blocks@).1 == Ok::<
                    Seq<BlockView>,
                    ErrorView,
                >(block_views(v@))
                &&& blocks_of(old(ctx).env(), old(ctx).state(), blocks@).0 == final(ctx).state()
            },
            Err(e) => blocks_of(old(ctx).env(), old(ctx).state(), blocks@).1 == Err::<
                Seq<BlockView>,
                ErrorView,
            >(e@),
        },
{
    let ghost env = ctx.env();
    let ghost start = ctx.state();
    let mut out: Vec<BasicBlock> = Vec::new();
    let mut i: usize = 0;
    assert(blocks@.take(0) =~= Seq::<MBlock>::empty());
    assert(block_views(out@) =~= Seq::<BlockView>::empty());
    assert(inst_views(ctx.out@) =~= Seq::<InstView>::empty());
    while i < blocks.len()
        invariant
            i <= blocks@.len(),
            env == old(ctx).env(),
            start == old(ctx).state(),
            old(ctx).room(blocks_cost(blocks@)),
            ctx.spent(*old(ctx), blocks_cost(blocks@.take(i as int))),
            blocks_of(env, start, blocks@.take(i as int)).1 == Ok::<Seq<BlockView>, ErrorView>(
                block_views(out@),
            ),
            blocks_of(env, start, blocks@.take(i as int)).0 == ctx.state(),
        decreases blocks@.len() - i,
    {
        assert(blocks@.take(i + 1).drop_last() =~= blocks@.take(i as int));
        assert(blocks@.take(i + 1).last() == blocks@[i as int]);
        proof {
            lemma_blocks_cost(blocks@, i + 1);
        }
        match ctx.lower_block(&blocks[i]) {
            Ok(b) => {
                let ghost before = out@;
                let ghost bv = b@;
                out.push(b);
                assert(block_views(out@) =~= block_views(before).push(bv));
                ctx.out = Vec::new();
                assert(inst_views(ctx.out@) =~= Seq::<InstView>::empty());
            },
            Err(e) => {
                proof {
                    lemma_blocks_stop(env, start, blocks@, i + 1);
                }
                return Err(e);
            },
        }
        i += 1;
    }
    assert(blocks@.take(blocks@.len() as int) =~= blocks@);
    Ok(out)
}

/// Lower a function, with the contracts of its parameters.
pub fn lower_function(body: &MirBody, id: FuncId, func_ids: &Vec<(String, u32)>) -> (r: Result<
    (Function, Vec<(u32, PtrContract)>),
    Error,
>)
    requires
        lowerable(*body),
    ensures
        match r {
            Ok((f, contracts)) => function_of(*body, id, table(func_ids@)) == Ok::<
                (FunctionView, Seq<(u32, PtrContract)>),
                ErrorView,
            >((f@, contracts@)),
            Err(e) => function_of(*body, id, table(func_ids@)) == Err::<
                (FunctionView, Seq<(u32, PtrContract)>),
                ErrorView,
            >(e@),
        },
{
    let first: u32 = max_local(body) + 1;
    let panic_id: u32 = max_block(body) + 1;
    let mut ctx = Ctx {
        local_types: local_types(body),
        func_ids,
        panic_id,
        next_temp: first,
        panic_used: false,
        lowering_failed: false,
        slice_len: HashMap::new(),
        checked_arith: HashMap::new(),
        field_paths: Vec::new(),
        out: Vec::new(),
    };
    let g = lower_signature(&body.params);
    let ghost g0 = g@;
    let mut params = g.params;
    let mut contracts = g.contracts;
    let slices = g.slices;
    let mut i: usize = 0;
    while i < slices.len()
        invariant
            i <= slices@.len(),
            slices@ == g0.slices,
            slices@.len() <= body.params@.len(),
            g0.params.len() == body.params@.len(),
            first == first_temp(*body),
            lowerable(*body),
            ctx.env() == env_of(*body, table(func_ids@)),
            ctx.next_temp == first + i,
            ctx.slice_len@ == lengths_of(g0, first as int, i as int),
            !ctx.panic_used,
            !ctx.lowering_failed,
            ctx.checked_arith@ == Map::<u32, crate::ir::Operand>::empty(),
            ctx.field_paths@.len() == 0,
            ctx.out@.len() == 0,
            params@ == with_lengths(g0, first as int, i as int).params,
            contracts@ == with_lengths(g0, first as int, i as int).contracts,
        decreases slices@.len() - i,
    {
        proof {
            lemma_with_lengths(g0, first as int, i as int);
        }
        let s = slices[i];
        let pos: u32 = s.0;
        let local: u32 = s.1;
        let stride: u64 = s.2;
        let len_pos: u32 = params.len() as u32;
        let len_reg: u32 = ctx.next_temp;
        ctx.next_temp = ctx.next_temp + 1;
        params.push((RegId(len_reg), Type::Int { bits: 64 }));
        ctx.slice_len.insert(local, len_reg);
        let align: u32 = (stride % 0x1_0000_0000) as u32;
        contracts.push(
            (
                pos,
                make_contract(
                    SizeSpec::ParamElements { len_param: len_pos, elem_size: stride },
                    align,
                    s.3,
                ),
            ),
        );
        i += 1;
    }
    proof {
        assert(crate::mir::emit::path_views(ctx.field_paths@) =~= Seq::<Seq<u32>>::empty());
        assert(inst_views(ctx.out@) =~= Seq::<InstView>::empty());
        assert(ctx.state() == start_of(*body));
    }
    let mut blocks = match lower_blocks(&mut ctx, &body.blocks) {
        Ok(b) => b,
        Err(e) => {
            return Err(e);
        },
    };
    if ctx.lowering_failed {
        return Err(
            Error::unsupported("a memory access could not be lowered to a known pointer"),
        );
    }
    if ctx.panic_used {
        let ghost before = blocks@;
        let pad = BasicBlock::new(BlockId(panic_id), Terminator::Unreachable);
        assert(pad@.insts =~= Seq::<InstView>::empty());
        assert(pad@.params =~= Seq::<(RegId, Type)>::empty());
        assert(pad@.spans =~= Seq::<Option<Seq<char>>>::empty());
        let ghost pv = pad@;
        blocks.push(pad);
        assert(block_views(blocks@) =~= block_views(before).push(pv));
    }
    Ok(
        (
            Function {
                id,
                name: body.name.clone(),
                params,
                ret_ty: mtype_to_ir(&body.ret),
                blocks,
                entry: BlockId(0),
            },
            contracts,
        ),
    )
}

// ---- modules ----

/// A closure, by its name.
pub open spec fn is_closure(name: Seq<char>) -> bool {
    first_at(name, "{closure"@, 0) is Some
}

/// The function of each name.
pub open spec fn ids_of(bodies: Seq<MirBody>) -> Map<Seq<char>, u32>
    decreases bodies.len(),
{
    if bodies.len() == 0 {
        Map::empty()
    } else {
        ids_of(bodies.drop_last()).insert(bodies.last().name@, (bodies.len() - 1) as u32)
    }
}

/// After one more function: it is recorded, or the reason why it was not analysed is. A
/// closure cannot be called from outside.
pub open spec fn record(r: Recorded, body: MirBody, id: FuncId, ids: Map<Seq<char>, u32>) -> Recorded {
    match function_of(body, id, ids) {
        Ok((f, contracts)) => Recorded {
            functions: r.functions.push(f),
            contracts: r.contracts + keyed(id, contracts),
            internal: if is_closure(body.name@) {
                r.internal.push(id)
            } else {
                r.internal
            },
            ..r
        },
        Err(e) => Recorded { unanalyzed: r.unanalyzed.push((body.name@, e.shown())), ..r },
    }
}

/// After functions, numbered from 0 on.
pub open spec fn records(r: Recorded, bodies: Seq<MirBody>, ids: Map<Seq<char>, u32>) -> Recorded
    decreases bodies.len(),
{
    if bodies.len() == 0 {
        r
    } else {
        record(
            records(r, bodies.drop_last(), ids),
            bodies.last(),
            FuncId((bodies.len() - 1) as u32),
            ids,
        )
    }
}

/// What is recorded before any function is lowered: those that were not parsed.
pub open spec fn recorded_at_start(failed: Seq<(String, String)>) -> Recorded {
    Recorded {
        functions: Seq::empty(),
        unanalyzed: pair_texts(failed),
        contracts: Seq::empty(),
        hints: Seq::empty(),
        internal: Seq::empty(),
    }
}

fn names_closure(name: &String) -> (r: bool)
    ensures
        r == is_closure(name@),
{
    let text = chars_of(name.as_str());
    let pat = chars_of("{closure");
    find_from(text.as_slice(), pat.as_slice(), 0).is_some()
}

fn function_ids(bodies: &Vec<MirBody>) -> (r: Vec<(String, u32)>)
    requires
        bodies@.len() <= u32::MAX,
    ensures
        table(r@) == ids_of(bodies@),
{
    let mut out: Vec<(String, u32)> = Vec::new();
    let mut i: usize = 0;
    assert(bodies@.take(0) =~= Seq::<MirBody>::empty());
    while i < bodies.len()
        invariant
            i <= bodies@.len() <= u32::MAX,
            table(out@) == ids_of(bodies@.take(i as int)),
        decreases bodies@.len() - i,
    {
        assert(bodies@.take(i + 1).drop_last() =~= bodies@.take(i as int));
        let e: (String, u32) = (bodies[i].name.clone(), i as u32);
        proof {
            lemma_table_push(out@, e);
        }
        out.push(e);
        i += 1;
    }
    assert(bodies@.take(bodies@.len() as int) =~= bodies@);
    out
}

fn lower_into(module: &mut Module, body: &MirBody, id: FuncId, ids: &Vec<(String, u32)>)
    requires
        lowerable(*body),
    ensures
        recorded_in(*final(module)) == record(recorded_in(*old(module)), *body, id, table(ids@)),
        final(module).name == old(module).name,
        final(module).globals == old(module).globals,
        final(module).global_fn_ptrs == old(module).global_fn_ptrs,
{
    match lower_function(body, id, ids) {
        Ok((f, contracts)) => {
            append_keyed(&mut module.param_contracts, id, &contracts);
            if names_closure(&body.name) {
                module.internal.push(id);
            }
            let ghost fv = f@;
            module.functions.push(f);
            assert(function_views(module.functions@) =~= function_views(old(module).functions@).push(
                fv,
            ));
        },
        Err(e) => {
            module.unanalyzed.push((body.name.clone(), e.render()));
            assert(pair_texts(module.unanalyzed@) =~= pair_texts(old(module).unanalyzed@).push(
                (body.name@, e@.shown()),
            ));
        },
    }
}

/// Lower parsed functions into a module. One that cannot be lowered, and each of `failed`,
/// is recorded with the reason.
pub fn lower_module(bodies: &Vec<MirBody>, failed: &Vec<(String, String)>, name: &str) -> (module:
    Module)
    requires
        bodies@.len() <= u32::MAX,
        forall|i: int| 0 <= i < bodies@.len() ==> lowerable(#[trigger] bodies@[i]),
    ensures
        module.name@ == name@,
        module.globals@.len() == 0,
        module.global_fn_ptrs@.len() == 0,
        recorded_in(module) == records(recorded_at_start(failed@), bodies@, ids_of(bodies@)),
{
    let ids = function_ids(bodies);
    let mut module = Module::new(name);
    module.unanalyzed = copy_pairs(failed);
    assert(recorded_in(module) =~= recorded_at_start(failed@));
    let mut i: usize = 0;
    assert(bodies@.take(0) =~= Seq::<MirBody>::empty());
    while i < bodies.len()
        invariant
            i <= bodies@.len() <= u32::MAX,
            forall|k: int| 0 <= k < bodies@.len() ==> lowerable(#[trigger] bodies@[k]),
            table(ids@) == ids_of(bodies@),
            module.name@ == name@,
            module.globals@.len() == 0,
            module.global_fn_ptrs@.len() == 0,
            recorded_in(module) == records(
                recorded_at_start(failed@),
                bodies@.take(i as int),
                ids_of(bodies@),
            ),
        decreases bodies@.len() - i,
    {
        assert(bodies@.take(i + 1).drop_last() =~= bodies@.take(i as int));
        assert(bodies@.take(i + 1).last() == bodies@[i as int]);
        lower_into(&mut module, &bodies[i], FuncId(i as u32), &ids);
        i += 1;
    }
    assert(bodies@.take(bodies@.len() as int) =~= bodies@);
    module
}

// ---- laws ----

/// Temporaries get registers above those of every local that the function mentions.
pub proof fn temporaries_are_above_locals(body: MirBody, l: u32)
    requires
        body_locals(body).contains(l),
    ensures
        l < first_temp(body),
        l < start_of(body).next,
{
    let all = body_locals(body);
    let i = choose|i: int| 0 <= i < all.len() && all[i] == l;
    lemma_most_bounds(all, i);
}

proof fn lemma_lengths(g: Signature, first: int, n: int)
    requires
        0 <= first,
        0 <= n,
        first + n <= u32::MAX + 1,
    ensures
        forall|k: u32| #[trigger]
            lengths_of(g, first, n).contains_key(k) ==> first <= lengths_of(g, first, n)[k] < first
                + n,
    decreases n,
{
    if n > 0 {
        lemma_lengths(g, first, n - 1);
        let before = lengths_of(g, first, n - 1);
        assert forall|k: u32| #[trigger] lengths_of(g, first, n).contains_key(k) implies first
            <= lengths_of(g, first, n)[k] < first + n by {
            if k != g.slices[n - 1].1 {
                assert(before.contains_key(k));
            }
        }
    }
}

/// The registers that hold the lengths of slices are none of the locals that the function
/// mentions, and none of the temporaries.
pub proof fn slice_lengths_are_above_locals(body: MirBody, l: u32, slice: u32)
    requires
        start_of(body).next <= u32::MAX + 1,
        body_locals(body).contains(l),
        start_of(body).lengths.contains_key(slice),
    ensures
        l < start_of(body).lengths[slice] < start_of(body).next,
{
    temporaries_are_above_locals(body, l);
    let g = signature(body.params@);
    lemma_lengths(g, first_temp(body), g.slices.len() as int);
}

/// The block that failed assertions go to is none of the function's own.
pub proof fn landing_pad_is_new(body: MirBody, i: int)
    requires
        0 <= i < body.blocks@.len(),
    ensures
        block_at(body.blocks@[i].id).0 < panic_block(body),
{
    let ns = block_numbers(body.blocks@);
    lemma_most_bounds(ns, i);
    assert(ns[i] == block_at(body.blocks@[i].id).0);
}

proof fn lemma_recorded_ids(r: Recorded, bodies: Seq<MirBody>, ids: Map<Seq<char>, u32>)
    requires
        r.functions.len() == 0,
        bodies.len() <= u32::MAX,
    ensures
        ({
            let s = records(r, bodies, ids).functions;
            &&& forall|i: int| 0 <= i < s.len() ==> (#[trigger] s[i]).id.0 < bodies.len()
            &&& forall|i: int, j: int|
                0 <= i < j < s.len() ==> (#[trigger] s[i]).id.0 < (#[trigger] s[j]).id.0
        }),
    decreases bodies.len(),
{
    if bodies.len() > 0 {
        lemma_recorded_ids(r, bodies.drop_last(), ids);
    }
}

/// No two functions of a lowered module share an id.
pub proof fn lowered_ids_are_distinct(
    bodies: Seq<MirBody>,
    failed: Seq<(String, String)>,
    module: Module,
)
    requires
        bodies.len() <= u32::MAX,
        recorded_in(module) == records(recorded_at_start(failed), bodies, ids_of(bodies)),
    ensures
        module.ids_distinct(),
{
    lemma_recorded_ids(recorded_at_start(failed), bodies, ids_of(bodies));
    let s = recorded_in(module).functions;
    assert forall|i: int, j: int| 0 <= i < j < module.functions@.len() implies module.functions@[i].id
        != module.functions@[j].id by {
        assert(s[i].id.0 < s[j].id.0);
    }
}

/// Function `i` keeps its number and its name, or it is recorded under its name, with the
/// reason, behind the first `n` functions that were not analysed.
pub open spec fn accounted(
    s: Recorded,
    n: int,
    bodies: Seq<MirBody>,
    ids: Map<Seq<char>, u32>,
    i: int,
) -> bool {
    match function_of(bodies[i], FuncId(i as u32), ids) {
        Ok((f, _)) => exists|k: int|
            0 <= k < s.functions.len() && #[trigger] s.functions[k] == f && f.id == FuncId(i as u32)
                && f.name == bodies[i].name@,
        Err(e) => exists|k: int|
            n <= k < s.unanalyzed.len() && #[trigger] s.unanalyzed[k] == (
                bodies[i].name@,
                e.shown(),
            ),
    }
}

/// Every function is accounted for: it is lowered under its own number, or recorded with the
/// reason why it was not analysed. What was recorded before stays in front.
pub proof fn no_function_is_dropped(
    r: Recorded,
    bodies: Seq<MirBody>,
    ids: Map<Seq<char>, u32>,
)
    ensures
        ({
            let s = records(r, bodies, ids);
            &&& s.functions.len() + s.unanalyzed.len() == r.functions.len() + r.unanalyzed.len()
                + bodies.len()
            &&& r.functions.len() <= s.functions.len()
            &&& r.unanalyzed.len() <= s.unanalyzed.len()
            &&& s.functions.take(r.functions.len() as int) == r.functions
            &&& s.unanalyzed.take(r.unanalyzed.len() as int) == r.unanalyzed
            &&& forall|i: int|
                0 <= i < bodies.len() ==> #[trigger] accounted(
                    s,
                    r.unanalyzed.len() as int,
                    bodies,
                    ids,
                    i,
                )
        }),
    decreases bodies.len(),
{
    let s = records(r, bodies, ids);
    let n = r.unanalyzed.len() as int;
    if bodies.len() > 0 {
        let front = bodies.drop_last();
        let t = records(r, front, ids);
        no_function_is_dropped(r, front, ids);
        assert(s.functions.take(r.functions.len() as int) =~= r.functions) by {
            assert forall|k: int| 0 <= k < r.functions.len() implies s.functions[k]
                == r.functions[k] by {
                assert(t.functions.take(r.functions.len() as int)[k] == t.functions[k]);
            }
        }
        assert(s.unanalyzed.take(n) =~= r.unanalyzed) by {
            assert forall|k: int| 0 <= k < n implies s.unanalyzed[k] == r.unanalyzed[k] by {
                assert(t.unanalyzed.take(n)[k] == t.unanalyzed[k]);
            }
        }
        assert forall|i: int| 0 <= i < bodies.len() implies #[trigger] accounted(
            s,
            n,
            bodies,
            ids,
            i,
        ) by {
            match function_of(bodies[i], FuncId(i as u32), ids) {
                Ok((f, _)) => {
                    if i < front.len() {
                        assert(accounted(t, n, front, ids, i));
                        let k = choose|k: int|
                            0 <= k < t.functions.len() && #[trigger] t.functions[k] == f;
                        assert(s.functions[k] == f);
                    } else {
                        assert(s.functions[t.functions.len() as int] == f);
                    }
                },
                Err(e) => {
                    if i < front.len() {
                        assert(accounted(t, n, front, ids, i));
                        let k = choose|k: int|
                            n <= k < t.unanalyzed.len() && #[trigger] t.unanalyzed[k] == (
                                bodies[i].name@,
                                e.shown(),
                            );
                        assert(s.unanalyzed[k] == t.unanalyzed[k]);
                    } else {
                        assert(s.unanalyzed[t.unanalyzed.len() as int] == (
                            bodies[i].name@,
                            e.shown(),
                        ));
                    }
                },
            }
        }
    } else {
        assert(s.functions.take(r.functions.len() as int) =~= r.functions);
        assert(s.unanalyzed.take(n) =~= r.unanalyzed);
    }
}

} // verus!
