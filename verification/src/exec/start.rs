//! The state in which a function is entered.

use crate::exec::check::{nowrap_fact, size_no_wrap_fact};
use crate::exec::eval::{const_expr, mk_untracked, untracked, zero};
use crate::exec::machine::{fresh_scalar, symbol, Machine, MachineView};
use crate::exec::step::{at_least_one, start_of, with_store};
use crate::exec::value::{
    bound, type_width, value_width, with_fact, with_region, POrigin, PathState, PathView, Prov,
    StoreRecord, SymPointer, SymRegion, SymValue, PTR_WIDTH,
};
use crate::expr::{
    bin, lit, mk_bin, mk_bool, mk_lit, mk_sle, sle, truth, BvOp, Ex, Expr, Symbol,
};
use crate::ir::{
    Assumption, BasicBlock, Const, Function, GlobalDef, Inst, Operand, PtrContract, RValue, RegId,
    RegionKind, SizeSpec, Terminator, Type,
};
use crate::names::{
    ascending, entry, in_order, in_order_ascends, lemma_precedes_total, lemma_table_push, lookup,
    name_texts, ordered_names, precedes, table,
};
use crate::numbers::{at, find};
use std::rc::Rc;
use vstd::prelude::*;

verus! {

/// A field of a parameter's region that holds a valid pointer at every call.
#[derive(Debug, Clone, Copy, PartialEq, Eq, Structural)]
pub struct FieldContract {
    pub offset: u64,
    pub pointee: PtrContract,
}

// ---- symbols ----

/// The symbol that an operand refers to.
pub open spec fn symbol_in(o: Operand) -> Option<String> {
    match o {
        Operand::Const(Const::Symbol(n)) => Some(n),
        Operand::Const(Const::SymbolOffset(n, _)) => Some(n),
        _ => None,
    }
}

/// The symbols that operands refer to.
pub open spec fn symbols_in(ops: Seq<Operand>) -> Seq<Seq<char>>
    decreases ops.len(),
{
    if ops.len() == 0 {
        Seq::empty()
    } else {
        match symbol_in(ops.last()) {
            Some(n) => symbols_in(ops.drop_last()).push(n@),
            None => symbols_in(ops.drop_last()),
        }
    }
}

/// The operands of a right side.
pub open spec fn value_operands(v: RValue) -> Seq<Operand> {
    match v {
        RValue::Use(o) => seq![o],
        RValue::Bin { lhs, rhs, .. } => seq![lhs, rhs],
        RValue::Cmp { lhs, rhs, .. } => seq![lhs, rhs],
        RValue::Cast { operand, .. } => seq![operand],
        RValue::Select { cond, on_true, on_false } => seq![cond, on_true, on_false],
    }
}

/// The operands of an instruction.
pub open spec fn inst_operands(inst: Inst) -> Seq<Operand> {
    match inst {
        Inst::Alloc { count, .. } => seq![count],
        Inst::Load { ptr, .. } => seq![ptr],
        Inst::Store { ptr, value, .. } => seq![ptr, value],
        Inst::PtrOffset { base, index, .. } => seq![base, index],
        Inst::FieldPtr { base, .. } => seq![base],
        Inst::Assign { value, .. } => value_operands(value),
        Inst::Call { args, .. } => args@,
        Inst::MemIntrinsic { dst, src, len, .. } => match src {
            Some(s) => seq![dst, s, len],
            None => seq![dst, len],
        },
        Inst::Dealloc { ptr, .. } => seq![ptr],
        _ => Seq::empty(),
    }
}

/// The operands of a terminator.
pub open spec fn term_operands(t: Terminator) -> Seq<Operand> {
    match t {
        Terminator::Return(Some(o)) => seq![o],
        Terminator::CondBr { cond, then_args, else_args, .. } => seq![cond] + then_args@
            + else_args@,
        Terminator::Br { args, .. } => args@,
        Terminator::Switch { value, .. } => seq![value],
        _ => Seq::empty(),
    }
}

/// The symbols that instructions refer to.
pub open spec fn inst_symbols(insts: Seq<Inst>) -> Seq<Seq<char>>
    decreases insts.len(),
{
    if insts.len() == 0 {
        Seq::empty()
    } else {
        inst_symbols(insts.drop_last()) + symbols_in(inst_operands(insts.last()))
    }
}

/// The symbols that blocks refer to.
pub open spec fn block_symbols(blocks: Seq<BasicBlock>) -> Seq<Seq<char>>
    decreases blocks.len(),
{
    if blocks.len() == 0 {
        Seq::empty()
    } else {
        block_symbols(blocks.drop_last()) + inst_symbols(blocks.last().insts@) + symbols_in(
            term_operands(blocks.last().term),
        )
    }
}

fn add_symbol(o: &Operand, out: &mut Vec<String>)
    ensures
        name_texts(final(out)@) == match symbol_in(*o) {
            Some(n) => name_texts(old(out)@).push(n@),
            None => name_texts(old(out)@),
        },
{
    let ghost before = out@;
    match o {
        Operand::Const(Const::Symbol(n)) => {
            out.push(n.clone());
            assert(name_texts(out@) =~= name_texts(before).push(n@));
        },
        Operand::Const(Const::SymbolOffset(n, _)) => {
            out.push(n.clone());
            assert(name_texts(out@) =~= name_texts(before).push(n@));
        },
        _ => {},
    }
}

fn add_symbols(ops: &Vec<Operand>, out: &mut Vec<String>)
    ensures
        name_texts(final(out)@) == name_texts(old(out)@) + symbols_in(ops@),
{
    let ghost start = name_texts(out@);
    let mut i: usize = 0;
    assert(ops@.take(0) =~= Seq::<Operand>::empty());
    assert(start + symbols_in(ops@.take(0)) =~= start);
    while i < ops.len()
        invariant
            i <= ops@.len(),
            name_texts(out@) == start + symbols_in(ops@.take(i as int)),
        decreases ops@.len() - i,
    {
        assert(ops@.take(i + 1).drop_last() =~= ops@.take(i as int));
        assert(ops@.take(i + 1).last() == ops@[i as int]);
        add_symbol(&ops[i], out);
        assert(name_texts(out@) =~= start + symbols_in(ops@.take(i + 1)));
        i += 1;
    }
    assert(ops@.take(ops@.len() as int) =~= ops@);
}

proof fn lemma_symbols_one(a: Operand)
    ensures
        symbols_in(seq![a]) == match symbol_in(a) {
            Some(n) => seq![n@],
            None => Seq::empty(),
        },
{
    assert(seq![a].drop_last() =~= Seq::<Operand>::empty());
    assert(seq![a].last() == a);
    assert(symbols_in(Seq::<Operand>::empty()) =~= Seq::<Seq<char>>::empty());
    assert(symbols_in(seq![a]) == match symbol_in(a) {
        Some(n) => symbols_in(Seq::<Operand>::empty()).push(n@),
        None => symbols_in(Seq::<Operand>::empty()),
    });
    assert(symbols_in(seq![a]) =~= match symbol_in(a) {
        Some(n) => seq![n@],
        None => Seq::empty(),
    });
}

proof fn lemma_symbols_concat(a: Seq<Operand>, b: Seq<Operand>)
    ensures
        symbols_in(a + b) == symbols_in(a) + symbols_in(b),
    decreases b.len(),
{
    if b.len() == 0 {
        assert(a + b =~= a);
        assert(symbols_in(a) + symbols_in(b) =~= symbols_in(a));
    } else {
        lemma_symbols_concat(a, b.drop_last());
        assert((a + b).drop_last() =~= a + b.drop_last());
        assert(symbols_in(a + b) =~= symbols_in(a) + symbols_in(b));
    }
}

fn add_one(a: &Operand, out: &mut Vec<String>)
    ensures
        name_texts(final(out)@) == name_texts(old(out)@) + symbols_in(seq![*a]),
{
    let ghost start = name_texts(out@);
    proof {
        lemma_symbols_one(*a);
    }
    add_symbol(a, out);
    assert(name_texts(out@) =~= start + symbols_in(seq![*a]));
}

fn add_two(a: &Operand, b: &Operand, out: &mut Vec<String>)
    ensures
        name_texts(final(out)@) == name_texts(old(out)@) + symbols_in(seq![*a, *b]),
{
    let ghost start = name_texts(out@);
    proof {
        lemma_symbols_concat(seq![*a], seq![*b]);
        assert(seq![*a] + seq![*b] =~= seq![*a, *b]);
    }
    add_one(a, out);
    add_one(b, out);
    assert(name_texts(out@) =~= start + symbols_in(seq![*a, *b]));
}

fn add_three(a: &Operand, b: &Operand, c: &Operand, out: &mut Vec<String>)
    ensures
        name_texts(final(out)@) == name_texts(old(out)@) + symbols_in(seq![*a, *b, *c]),
{
    let ghost start = name_texts(out@);
    proof {
        lemma_symbols_concat(seq![*a, *b], seq![*c]);
        assert(seq![*a, *b] + seq![*c] =~= seq![*a, *b, *c]);
    }
    add_two(a, b, out);
    add_one(c, out);
    assert(name_texts(out@) =~= start + symbols_in(seq![*a, *b, *c]));
}

fn add_value(v: &RValue, out: &mut Vec<String>)
    ensures
        name_texts(final(out)@) == name_texts(old(out)@) + symbols_in(value_operands(*v)),
{
    match v {
        RValue::Use(o) => add_one(o, out),
        RValue::Bin { lhs, rhs, .. } => add_two(lhs, rhs, out),
        RValue::Cmp { lhs, rhs, .. } => add_two(lhs, rhs, out),
        RValue::Cast { operand, .. } => add_one(operand, out),
        RValue::Select { cond, on_true, on_false } => add_three(cond, on_true, on_false, out),
    }
}

fn add_inst(inst: &Inst, out: &mut Vec<String>)
    ensures
        name_texts(final(out)@) == name_texts(old(out)@) + symbols_in(inst_operands(*inst)),
{
    assert(name_texts(out@) + symbols_in(Seq::empty()) =~= name_texts(out@));
    match inst {
        Inst::Alloc { count, .. } => add_one(count, out),
        Inst::Load { ptr, .. } => add_one(ptr, out),
        Inst::Store { ptr, value, .. } => add_two(ptr, value, out),
        Inst::PtrOffset { base, index, .. } => add_two(base, index, out),
        Inst::FieldPtr { base, .. } => add_one(base, out),
        Inst::Assign { value, .. } => add_value(value, out),
        Inst::Call { args, .. } => add_symbols(args, out),
        Inst::MemIntrinsic { dst, src, len, .. } => match src {
            Some(s) => add_three(dst, s, len, out),
            None => add_two(dst, len, out),
        },
        Inst::Dealloc { ptr, .. } => add_one(ptr, out),
        _ => {},
    }
}

fn add_term(t: &Terminator, out: &mut Vec<String>)
    ensures
        name_texts(final(out)@) == name_texts(old(out)@) + symbols_in(term_operands(*t)),
{
    let ghost start = name_texts(out@);
    assert(start + symbols_in(Seq::empty()) =~= start);
    match t {
        Terminator::Return(Some(o)) => add_one(o, out),
        Terminator::CondBr { cond, then_args, else_args, .. } => {
            proof {
                lemma_symbols_concat(seq![*cond], then_args@);
                lemma_symbols_concat(seq![*cond] + then_args@, else_args@);
            }
            add_one(cond, out);
            add_symbols(then_args, out);
            add_symbols(else_args, out);
            assert(name_texts(out@) =~= start + symbols_in(term_operands(*t)));
        },
        Terminator::Br { args, .. } => add_symbols(args, out),
        Terminator::Switch { value, .. } => add_one(value, out),
        _ => {},
    }
}

/// The symbols that a function refers to, in order, with repetitions.
pub fn referenced_symbols(f: &Function) -> (r: Vec<String>)
    ensures
        name_texts(r@) == block_symbols(f.blocks@),
{
    let mut out: Vec<String> = Vec::new();
    let mut i: usize = 0;
    assert(f.blocks@.take(0) =~= Seq::<BasicBlock>::empty());
    assert(name_texts(out@) =~= Seq::<Seq<char>>::empty());
    while i < f.blocks.len()
        invariant
            i <= f.blocks@.len(),
            name_texts(out@) == block_symbols(f.blocks@.take(i as int)),
        decreases f.blocks@.len() - i,
    {
        assert(f.blocks@.take(i + 1).drop_last() =~= f.blocks@.take(i as int));
        assert(f.blocks@.take(i + 1).last() == f.blocks@[i as int]);
        let insts = &f.blocks[i].insts;
        let ghost start = name_texts(out@);
        let mut k: usize = 0;
        assert(insts@.take(0) =~= Seq::<Inst>::empty());
        assert(start + inst_symbols(insts@.take(0)) =~= start);
        while k < insts.len()
            invariant
                k <= insts@.len(),
                name_texts(out@) == start + inst_symbols(insts@.take(k as int)),
            decreases insts@.len() - k,
        {
            assert(insts@.take(k + 1).drop_last() =~= insts@.take(k as int));
            assert(insts@.take(k + 1).last() == insts@[k as int]);
            add_inst(&insts[k], &mut out);
            assert(name_texts(out@) =~= start + inst_symbols(insts@.take(k + 1)));
            k += 1;
        }
        assert(insts@.take(insts@.len() as int) =~= insts@);
        add_term(&f.blocks[i].term, &mut out);
        i += 1;
    }
    assert(f.blocks@.take(f.blocks@.len() as int) =~= f.blocks@);
    out
}

// ---- parameters ----

/// The contract of a parameter.
pub open spec fn contract_at(cs: Seq<Option<PtrContract>>, i: int) -> Option<PtrContract> {
    if 0 <= i < cs.len() {
        cs[i]
    } else {
        None
    }
}

/// The state with the first `n` parameters that have no contract.
pub open spec fn plain_params(
    s: PathView,
    params: Seq<(RegId, Type)>,
    cs: Seq<Option<PtrContract>>,
    n: int,
) -> PathView
    decreases n,
{
    if n <= 0 {
        s
    } else {
        let s1 = plain_params(s, params, cs, n - 1);
        let (r, ty) = params[n - 1];
        match contract_at(cs, n - 1) {
            Some(_) => s1,
            None => bound(
                s1,
                r.0,
                if ty is Ptr {
                    SymValue::Ptr(untracked(POrigin::Param))
                } else {
                    SymValue::Scalar(symbol(Symbol::Arg((n - 1) as u64), value_width(ty)))
                },
            ),
        }
    }
}

/// The size of a contracted region, what it rests on, and why it does not wrap.
pub open spec fn contract_size(
    m: MachineView,
    s: PathView,
    params: Seq<(RegId, Type)>,
    size: SizeSpec,
) -> (MachineView, Ex, Assumption, Option<Ex>) {
    match size {
        SizeSpec::Bytes(n) => (
            m,
            lit(PTR_WIDTH, n as u128),
            Assumption::ParamContracts,
            Some(truth(true)),
        ),
        SizeSpec::ParamElements { len_param, elem_size } => {
            let (m1, len) = length_param(m, s, params, len_param);
            (
                m1,
                bin(BvOp::Mul, len, lit(PTR_WIDTH, elem_size as u128)),
                Assumption::SliceAbi,
                Some(nowrap_fact(len, elem_size)),
            )
        },
        SizeSpec::Opaque => {
            let (m1, e) = fresh_scalar(m, PTR_WIDTH);
            (m1, e, Assumption::StructAbi, None)
        },
    }
}

/// The value of a length parameter.
pub open spec fn length_param(
    m: MachineView,
    s: PathView,
    params: Seq<(RegId, Type)>,
    i: u32,
) -> (MachineView, Ex) {
    if i < params.len() {
        match at(s.env, (params[i as int].0).0) {
            Some(SymValue::Scalar(e)) => (m, e),
            _ => fresh_scalar(m, PTR_WIDTH),
        }
    } else {
        fresh_scalar(m, PTR_WIDTH)
    }
}

/// A region that a caller guarantees.
pub open spec fn contract_region(
    c: PtrContract,
    size: Ex,
    basis: Assumption,
    nowrap: Option<Ex>,
) -> SymRegion {
    SymRegion {
        kind: RegionKind::Heap,
        size,
        live: true,
        readable: c.readable,
        writable: c.writable,
        contract: match c.assumption {
            Some(a) => Some(a),
            None => Some(basis),
        },
        size_nowrap: nowrap,
        sentinel: match c.sentinel {
            Some(w) => Some(w as u64),
            None => None,
        },
        user_controlled: false,
    }
}

/// The state with one field of a region holding a valid pointer.
pub open spec fn field_seeded(s: PathView, region: usize, fc: FieldContract) -> PathView {
    match fc.pointee.size {
        SizeSpec::Bytes(n) => {
            let align = at_least_one(fc.pointee.align as u64);
            let r = SymRegion {
                sentinel: None,
                ..contract_region(
                    fc.pointee,
                    lit(PTR_WIDTH, n as u128),
                    Assumption::ParamContracts,
                    None,
                )
            };
            with_store(
                with_region(s, r),
                StoreRecord {
                    target: SymPointer {
                        prov: Prov::Region(region),
                        offset: lit(PTR_WIDTH, fc.offset as u128),
                        align,
                    },
                    value: start_of(s.regions.len() as int, align),
                    size: 8,
                },
            )
        },
        _ => s,
    }
}

/// The state with the first `n` fields of a region holding valid pointers.
pub open spec fn fields_seeded(s: PathView, region: usize, fcs: Seq<FieldContract>, n: int) -> PathView
    decreases n,
{
    if n <= 0 {
        s
    } else {
        field_seeded(fields_seeded(s, region, fcs, n - 1), region, fcs[n - 1])
    }
}

/// The fields of a parameter's region that hold valid pointers.
pub open spec fn fields_at(fields: Seq<Vec<FieldContract>>, i: int) -> Seq<FieldContract> {
    if 0 <= i < fields.len() {
        fields[i]@
    } else {
        Seq::empty()
    }
}

/// After one contracted parameter.
pub open spec fn contracted_param(
    m: MachineView,
    s: PathView,
    params: Seq<(RegId, Type)>,
    reg: RegId,
    c: PtrContract,
    fcs: Seq<FieldContract>,
) -> (MachineView, PathView) {
    let (m1, size, basis, nowrap) = contract_size(m, s, params, c.size);
    let r = contract_region(
        c,
        size,
        basis,
        if c.refutable {
            nowrap
        } else {
            None
        },
    );
    let rid = s.regions.len();
    let s1 = bound(
        with_region(with_fact(s, sle(zero(), size)), r),
        reg.0,
        start_of(rid as int, at_least_one(c.align as u64)),
    );
    (m1, fields_seeded(s1, rid as usize, fcs, fcs.len() as int))
}

/// After the first `n` parameters that have a contract.
pub open spec fn contracted_params(
    m: MachineView,
    s: PathView,
    params: Seq<(RegId, Type)>,
    cs: Seq<Option<PtrContract>>,
    fields: Seq<Vec<FieldContract>>,
    n: int,
) -> (MachineView, PathView)
    decreases n,
{
    if n <= 0 {
        (m, s)
    } else {
        let (m1, s1) = contracted_params(m, s, params, cs, fields, n - 1);
        match contract_at(cs, n - 1) {
            None => (m1, s1),
            Some(c) => contracted_param(
                m1,
                s1,
                params,
                params[n - 1].0,
                c,
                fields_at(fields, n - 1),
            ),
        }
    }
}

// ---- globals ----

/// The region of a global, which lives as long as the program.
pub open spec fn global_region(g: GlobalDef) -> SymRegion {
    SymRegion {
        kind: RegionKind::Global,
        size: lit(PTR_WIDTH, g.size as u128),
        live: true,
        readable: true,
        writable: g.writable,
        contract: Some(Assumption::GlobalMemory),
        size_nowrap: Some(truth(true)),
        sentinel: None,
        user_controlled: false,
    }
}

/// The state with a region for each global among the first `n` names, and the regions.
pub open spec fn with_globals(
    s: PathView,
    names: Seq<Seq<char>>,
    globals: Map<Seq<char>, GlobalDef>,
    n: int,
) -> (PathView, Map<Seq<char>, (usize, u64)>)
    decreases n,
{
    if n <= 0 {
        (s, Map::empty())
    } else {
        let (s1, known) = with_globals(s, names, globals, n - 1);
        match entry(globals, names[n - 1]) {
            Some(g) => (
                with_region(s1, global_region(g)),
                known.insert(names[n - 1], (s1.regions.len() as usize, at_least_one(g.align))),
            ),
            None => (s1, known),
        }
    }
}

/// A state in which nothing is known.
pub open spec fn blank() -> PathView {
    PathView {
        env: Map::empty(),
        regions: Seq::empty(),
        pathcond: Seq::empty(),
        facts: Seq::empty(),
        heap: Seq::empty(),
        exact: true,
    }
}

/// The state in which a function is entered, and the regions of globals: those that it refers
/// to, in the order of their names.
pub open spec fn entry_state(
    m: MachineView,
    f: Function,
    cs: Seq<Option<PtrContract>>,
    fields: Seq<Vec<FieldContract>>,
    globals: Map<Seq<char>, GlobalDef>,
) -> (MachineView, PathView, Map<Seq<char>, (usize, u64)>) {
    let n = f.params@.len() as int;
    let s1 = plain_params(blank(), f.params@, cs, n);
    let (m1, s2) = contracted_params(m, s1, f.params@, cs, fields, n);
    let names = in_order(block_symbols(f.blocks@));
    let (s3, known) = with_globals(s2, names, globals, names.len() as int);
    (m1, s3, known)
}

proof fn lemma_globals_by_name(
    s: PathView,
    names: Seq<Seq<char>>,
    globals: Map<Seq<char>, GlobalDef>,
    n: int,
)
    requires
        ascending(names),
        0 <= n <= names.len(),
        with_globals(s, names, globals, n).0.regions.len() <= usize::MAX,
    ensures
        ({
            let (t, known) = with_globals(s, names, globals, n);
            &&& t.regions.len() >= s.regions.len()
            &&& forall|a: Seq<char>| #[trigger]
                known.contains_key(a) <==> (globals.contains_key(a) && names.take(n).contains(a))
            &&& forall|a: Seq<char>| #[trigger]
                known.contains_key(a) ==> s.regions.len() <= known[a].0 < t.regions.len()
                    && t.regions[known[a].0 as int] == global_region(globals[a])
            &&& forall|a: Seq<char>, b: Seq<char>|
                #![trigger known.contains_key(a), known.contains_key(b)]
                known.contains_key(a) && known.contains_key(b) && precedes(a, b) ==> known[a].0
                    < known[b].0
        }),
    decreases n,
{
    if n > 0 {
        let (t1, known1) = with_globals(s, names, globals, n - 1);
        let (t, known) = with_globals(s, names, globals, n);
        let x = names[n - 1];
        lemma_globals_by_name(s, names, globals, n - 1);
        let front = names.take(n - 1);
        let whole = names.take(n);
        assert(whole =~= front.push(x));
        assert forall|a: Seq<char>| front.contains(a) implies precedes(a, x) && a
            != x by {
            let k = choose|k: int| 0 <= k < n - 1 && front[k] == a;
            assert(precedes(names[k], names[n - 1]));
            lemma_precedes_total(a, x);
        }
        assert forall|a: Seq<char>| #[trigger]
            known.contains_key(a) <==> (globals.contains_key(a) && whole.contains(
                a,
            )) by {
            if whole.contains(a) && a != x {
                let k = choose|k: int| 0 <= k < n && whole[k] == a;
                assert(front[k] == a);
            }
            if front.contains(a) {
                let k = choose|k: int| 0 <= k < n - 1 && front[k] == a;
                assert(whole[k] == a);
            }
            assert(whole[n - 1] == x);
            assert(known1.contains_key(a) ==> front.contains(a));
        }
        assert forall|a: Seq<char>| #[trigger] known.contains_key(a) implies s.regions.len()
            <= known[a].0 < t.regions.len() && t.regions[known[a].0 as int] == global_region(
            globals[a],
        ) by {
            if a != x {
                assert(known1.contains_key(a));
            }
        }
        assert forall|a: Seq<char>, b: Seq<char>|
            #![trigger known.contains_key(a), known.contains_key(b)]
            known.contains_key(a) && known.contains_key(b) && precedes(a, b) implies known[a].0
            < known[b].0 by {
            lemma_precedes_total(a, b);
            if a != x {
                assert(known1.contains_key(a));
            }
            if b != x {
                assert(known1.contains_key(b));
            }
        }
    } else {
        assert(names.take(0) =~= Seq::empty());
    }
}

/// A region stands for each global that a function refers to, with what is known of the
/// global, and the regions are numbered in the order of the names.
pub proof fn globals_are_numbered_by_name(
    m: MachineView,
    f: Function,
    cs: Seq<Option<PtrContract>>,
    fields: Seq<Vec<FieldContract>>,
    globals: Map<Seq<char>, GlobalDef>,
)
    requires
        entry_state(m, f, cs, fields, globals).1.regions.len() <= usize::MAX,
    ensures
        ({
            let (_, s, known) = entry_state(m, f, cs, fields, globals);
            &&& forall|a: Seq<char>| #[trigger]
                known.contains_key(a) <==> (globals.contains_key(a) && block_symbols(
                    f.blocks@,
                ).contains(a))
            &&& forall|a: Seq<char>| #[trigger]
                known.contains_key(a) ==> known[a].0 < s.regions.len()
                    && s.regions[known[a].0 as int] == global_region(globals[a])
            &&& forall|a: Seq<char>, b: Seq<char>|
                #![trigger known.contains_key(a), known.contains_key(b)]
                known.contains_key(a) && known.contains_key(b) && precedes(a, b) ==> known[a].0
                    < known[b].0
        }),
{
    let n = f.params@.len() as int;
    let s1 = plain_params(blank(), f.params@, cs, n);
    let (m1, s2) = contracted_params(m, s1, f.params@, cs, fields, n);
    let names = in_order(block_symbols(f.blocks@));
    in_order_ascends(block_symbols(f.blocks@));
    assert(names.take(names.len() as int) =~= names);
    lemma_globals_by_name(s2, names, globals, names.len() as int);
}

// ---- the entry at work ----

fn find_contract(cs: &Vec<Option<PtrContract>>, i: usize) -> (r: Option<PtrContract>)
    ensures
        r == contract_at(cs@, i as int),
{
    if i < cs.len() {
        cs[i]
    } else {
        None
    }
}

fn one_at_least(x: u64) -> (r: u64)
    ensures
        r == at_least_one(x),
{
    if x > 1 {
        x
    } else {
        1
    }
}

fn mk_contract_region(c: &PtrContract, size: Ex, basis: Assumption, nowrap: Option<Ex>) -> (r:
    SymRegion)
    ensures
        r == contract_region(*c, size, basis, nowrap),
{
    SymRegion {
        kind: RegionKind::Heap,
        size,
        live: true,
        readable: c.readable,
        writable: c.writable,
        contract: match c.assumption {
            Some(a) => Some(a),
            None => Some(basis),
        },
        size_nowrap: nowrap,
        sentinel: match c.sentinel {
            Some(w) => Some(w as u64),
            None => None,
        },
        user_controlled: false,
    }
}

fn start_value(region: usize, align: u64) -> (v: SymValue)
    ensures
        v == start_of(region as int, align),
{
    SymValue::Ptr(SymPointer { prov: Prov::Region(region), offset: const_expr(0), align })
}

fn bind_plain(s: &mut PathState, params: &Vec<(RegId, Type)>, cs: &Vec<Option<PtrContract>>)
    ensures
        final(s)@ == plain_params(old(s)@, params@, cs@, params@.len() as int),
{
    let mut i: usize = 0;
    while i < params.len()
        invariant
            i <= params@.len(),
            s@ == plain_params(old(s)@, params@, cs@, i as int),
        decreases params@.len() - i,
    {
        if find_contract(cs, i).is_none() {
            let v = if params[i].1.is_ptr() {
                SymValue::Ptr(mk_untracked(POrigin::Param))
            } else {
                SymValue::Scalar(
                    Rc::new(
                        Expr::Sym {
                            name: Symbol::Arg(i as u64),
                            width: type_width(&params[i].1),
                        },
                    ),
                )
            };
            s.bind((params[i].0).0, v);
        }
        i += 1;
    }
}

fn seed_fields(s: &mut PathState, region: usize, fcs: &Vec<FieldContract>)
    ensures
        final(s)@ == fields_seeded(old(s)@, region, fcs@, fcs@.len() as int),
{
    let mut i: usize = 0;
    while i < fcs.len()
        invariant
            i <= fcs@.len(),
            s@ == fields_seeded(old(s)@, region, fcs@, i as int),
        decreases fcs@.len() - i,
    {
        let fc = fcs[i];
        if let SizeSpec::Bytes(n) = fc.pointee.size {
            let align: u64 = one_at_least(fc.pointee.align as u64);
            let mut r = mk_contract_region(
                &fc.pointee,
                mk_lit(PTR_WIDTH, n as u128),
                Assumption::ParamContracts,
                None,
            );
            r.sentinel = None;
            let k = s.add_region(r);
            s.heap.push(
                StoreRecord {
                    target: SymPointer {
                        prov: Prov::Region(region),
                        offset: mk_lit(PTR_WIDTH, fc.offset as u128),
                        align,
                    },
                    value: start_value(k, align),
                    size: 8,
                },
            );
        }
        i += 1;
    }
}

impl<'a> Machine<'a> {
    fn length_of(&mut self, s: &PathState, params: &Vec<(RegId, Type)>, i: u32) -> (e: Ex)
        ensures
            (final(self)@, e) == length_param(old(self)@, s@, params@, i),
    {
        if (i as usize) < params.len() {
            if let Some(SymValue::Scalar(e)) = find(&s.env, (params[i as usize].0).0) {
                return e.clone();
            }
        }
        self.fresh_scalar(PTR_WIDTH)
    }

    fn size_of_contract(&mut self, s: &PathState, params: &Vec<(RegId, Type)>, size: SizeSpec) -> (
    r: (Ex, Assumption, Option<Ex>))
        ensures
            (final(self)@, r.0, r.1, r.2) == contract_size(old(self)@, s@, params@, size),
    {
        match size {
            SizeSpec::Bytes(n) => (
                mk_lit(PTR_WIDTH, n as u128),
                Assumption::ParamContracts,
                Some(mk_bool(true)),
            ),
            SizeSpec::ParamElements { len_param, elem_size } => {
                let len = self.length_of(s, params, len_param);
                let e = mk_bin(BvOp::Mul, &len, &mk_lit(PTR_WIDTH, elem_size as u128));
                (e, Assumption::SliceAbi, Some(size_no_wrap_fact(&len, elem_size)))
            },
            SizeSpec::Opaque => {
                let e = self.fresh_scalar(PTR_WIDTH);
                (e, Assumption::StructAbi, None)
            },
        }
    }

    fn bind_contracted(
        &mut self,
        s: &mut PathState,
        params: &Vec<(RegId, Type)>,
        reg: RegId,
        c: &PtrContract,
        fcs: &Vec<FieldContract>,
    )
        ensures
            (final(self)@, final(s)@) == contracted_param(
                old(self)@,
                old(s)@,
                params@,
                reg,
                *c,
                fcs@,
            ),
    {
        let (size, basis, nowrap) = self.size_of_contract(s, params, c.size);
        let nw: Option<Ex> = if c.refutable {
            nowrap
        } else {
            None
        };
        s.add_fact(mk_sle(&const_expr(0), &size));
        let rid = s.add_region(mk_contract_region(c, size, basis, nw));
        s.bind(reg.0, start_value(rid, one_at_least(c.align as u64)));
        seed_fields(s, rid, fcs);
    }

    /// The state in which a function is entered, and the regions of globals.
    pub fn enter(
        &mut self,
        f: &Function,
        cs: &Vec<Option<PtrContract>>,
        fields: &Vec<Vec<FieldContract>>,
        globals: &Vec<(String, GlobalDef)>,
        names: &Vec<String>,
    ) -> (r: (PathState, Vec<(String, (usize, u64))>))
        requires
            name_texts(names@) == block_symbols(f.blocks@),
        ensures
            (final(self)@, r.0@, table((r.1)@)) == entry_state(
                old(self)@,
                *f,
                cs@,
                fields@,
                table(globals@),
            ),
    {
        let mut s = PathState {
            env: Vec::new(),
            regions: Vec::new(),
            pathcond: Vec::new(),
            facts: Vec::new(),
            heap: Vec::new(),
            exact: true,
        };
        assert(s@ =~= blank());
        bind_plain(&mut s, &f.params, cs);
        let ghost s1 = s@;
        let none: Vec<FieldContract> = Vec::new();
        assert(none@ =~= Seq::<FieldContract>::empty());
        let mut i: usize = 0;
        while i < f.params.len()
            invariant
                i <= f.params@.len(),
                none@ == Seq::<FieldContract>::empty(),
                (self@, s@) == contracted_params(
                    old(self)@,
                    s1,
                    f.params@,
                    cs@,
                    fields@,
                    i as int,
                ),
            decreases f.params@.len() - i,
        {
            if let Some(c) = find_contract(cs, i) {
                let fcs: &Vec<FieldContract> = if i < fields.len() {
                    &fields[i]
                } else {
                    &none
                };
                assert(fcs@ == fields_at(fields@, i as int));
                self.bind_contracted(&mut s, &f.params, f.params[i].0, &c, fcs);
            }
            i += 1;
        }
        let sorted = ordered_names(names);
        let known = add_globals(&mut s, &sorted, globals);
        (s, known)
    }
}

fn add_globals(s: &mut PathState, names: &Vec<String>, globals: &Vec<(String, GlobalDef)>) -> (r:
    Vec<(String, (usize, u64))>)
    ensures
        (final(s)@, table(r@)) == with_globals(
            old(s)@,
            name_texts(names@),
            table(globals@),
            names@.len() as int,
        ),
{
    let ghost ns = name_texts(names@);
    let mut out: Vec<(String, (usize, u64))> = Vec::new();
    let mut i: usize = 0;
    while i < names.len()
        invariant
            i <= names@.len(),
            ns == name_texts(names@),
            (s@, table(out@)) == with_globals(old(s)@, ns, table(globals@), i as int),
        decreases names@.len() - i,
    {
        let found: Option<GlobalDef> = match lookup(globals, &names[i]) {
            Some(g) => Some(*g),
            None => None,
        };
        if let Some(g) = found {
            let rid = s.add_region(
                SymRegion {
                    kind: RegionKind::Global,
                    size: mk_lit(PTR_WIDTH, g.size as u128),
                    live: true,
                    readable: true,
                    writable: g.writable,
                    contract: Some(Assumption::GlobalMemory),
                    size_nowrap: Some(mk_bool(true)),
                    sentinel: None,
                    user_controlled: false,
                },
            );
            let e: (String, (usize, u64)) = (names[i].clone(), (rid, one_at_least(g.align)));
            proof {
                lemma_table_push(out@, e);
            }
            out.push(e);
        }
        i += 1;
    }
    out
}

} // verus!
