//! Lowering functions and modules.

use crate::error::{Error, ErrorView};
use crate::ir::{
    block_views, field_offset, size_of_type, BasicBlock, BlockId, BlockView, FuncId, Function, FunctionView,
    GlobalDef, Module, PtrContract, RegId, Type,
};
use crate::llvm::ast::{LBlock, LFields, LFunc, LGlobal, LModule, LParam, LType};
use crate::llvm::blocks::{block_cost, block_lowered, block_well_formed, lower_block};
use crate::llvm::debuginfo::{DebugInfo, DiView};
use crate::llvm::facts::{
    all_names, all_param_facts, block_names, checked_arith_map, checked_ops, contracts_of,
    defined_all, hints_of, texts,
};
use crate::llvm::lower::{defined_view, lower_type, type_of, Ctx, CtxView};
use crate::llvm::recovery::{field_loads_of, reference_field_loads};
use crate::llvm::slices::{flat, LoadedPtr};
use crate::names::{entry, lemma_table_push, lookup, table};
use vstd::prelude::*;

verus! {

/// The loads without the word on assumptions.
pub open spec fn owed_loads(m: Map<Seq<char>, LoadedPtr>) -> Map<Seq<char>, (u64, u32, bool)> {
    Map::new(|n: Seq<char>| m.contains_key(n), |n: Seq<char>| (m[n].0, m[n].1, m[n].2))
}

/// The block of each label.
pub open spec fn labels_of(blocks: Seq<LBlock>) -> Map<Seq<char>, u32>
    decreases blocks.len(),
{
    if blocks.len() == 0 {
        Map::empty()
    } else {
        labels_of(blocks.drop_last()).insert(blocks.last().label@, (blocks.len() - 1) as u32)
    }
}

/// The context in which a function's names are defined.
pub open spec fn context_of(f: LFunc, ids: Map<Seq<char>, u32>, di: DiView) -> CtxView {
    CtxView {
        regs: Map::empty(),
        next: 0,
        blocks: labels_of(f.blocks@),
        func: f,
        func_ids: ids,
        checked: checked_ops(flat(f.blocks@)),
        field_loads: owed_loads(field_loads_of(f, di, false)),
    }
}

/// The context after the parameters, and their registers and types.
pub open spec fn params_of(c: CtxView, params: Seq<LParam>) -> (CtxView, Seq<(RegId, Type)>)
    decreases params.len(),
{
    if params.len() == 0 {
        (c, Seq::empty())
    } else {
        let (c1, s) = params_of(c, params.drop_last());
        let (c2, r) = defined_view(c1, params.last().name@);
        (c2, s.push((r, type_of(params.last().ty))))
    }
}

/// What blocks become, numbered from 0 on.
pub open spec fn blocks_of(c: CtxView, blocks: Seq<LBlock>) -> Result<
    (CtxView, Seq<BlockView>),
    ErrorView,
>
    decreases blocks.len(),
{
    if blocks.len() == 0 {
        Ok((c, Seq::empty()))
    } else {
        match blocks_of(c, blocks.drop_last()) {
            Err(e) => Err(e),
            Ok((c1, s)) => match block_lowered(
                c1,
                blocks.last(),
                BlockId((blocks.len() - 1) as u32),
            ) {
                Err(e) => Err(e),
                Ok((c2, b)) => Ok((c2, s.push(b))),
            },
        }
    }
}

/// What a function becomes.
#[verifier::opaque]
pub open spec fn function_of(f: LFunc, id: FuncId, ids: Map<Seq<char>, u32>, di: DiView) -> Result<
    FunctionView,
    ErrorView,
> {
    let (c1, params) = params_of(context_of(f, ids, di), f.params@);
    match blocks_of(defined_all(c1, block_names(f.blocks@)), f.blocks@) {
        Err(e) => Err(e),
        Ok((c, blocks)) => Ok(
            FunctionView {
                id,
                name: f.name@,
                params,
                ret_ty: type_of(f.ret),
                blocks,
                entry: BlockId(0),
            },
        ),
    }
}

/// A bound on the registers that lowering blocks uses.
pub open spec fn blocks_cost(blocks: Seq<LBlock>) -> nat
    decreases blocks.len(),
{
    if blocks.len() == 0 {
        0
    } else {
        blocks_cost(blocks.drop_last()) + block_cost(blocks.last())
    }
}

/// A function that can be lowered: every block is well formed, and registers and blocks
/// can be numbered.
pub open spec fn lowerable(f: LFunc) -> bool {
    &&& forall|i: int| 0 <= i < f.blocks@.len() ==> block_well_formed(#[trigger] f.blocks@[i])
    &&& f.blocks@.len() <= u32::MAX
    &&& f.params@.len() + block_names(f.blocks@).len() + blocks_cost(f.blocks@) <= u32::MAX
}

proof fn lemma_owed_push(s: Seq<(String, LoadedPtr)>, e: (String, LoadedPtr))
    ensures
        owed_loads(table(s.push(e))) == owed_loads(table(s)).insert(
            e.0@,
            ((e.1).0, (e.1).1, (e.1).2),
        ),
{
    lemma_table_push(s, e);
    assert(owed_loads(table(s.push(e))) =~= owed_loads(table(s)).insert(
        e.0@,
        ((e.1).0, (e.1).1, (e.1).2),
    ));
}

fn owed(loads: Vec<(String, LoadedPtr)>) -> (r: Vec<(String, (u64, u32, bool))>)
    ensures
        table(r@) == owed_loads(table(loads@)),
{
    let mut out: Vec<(String, (u64, u32, bool))> = Vec::new();
    let mut i: usize = 0;
    assert(loads@.take(0) =~= Seq::<(String, LoadedPtr)>::empty());
    assert(owed_loads(Map::empty()) =~= Map::empty());
    while i < loads.len()
        invariant
            i <= loads@.len(),
            table(out@) == owed_loads(table(loads@.take(i as int))),
        decreases loads@.len() - i,
    {
        let l = &loads[i].1;
        let e: (String, (u64, u32, bool)) = (loads[i].0.clone(), (l.0, l.1, l.2));
        proof {
            lemma_table_push(out@, e);
            lemma_owed_push(loads@.take(i as int), loads@[i as int]);
        }
        assert(loads@.take(i + 1) =~= loads@.take(i as int).push(loads@[i as int]));
        out.push(e);
        i += 1;
    }
    assert(loads@.take(loads@.len() as int) =~= loads@);
    out
}

fn block_labels(f: &LFunc) -> (r: Vec<(String, u32)>)
    requires
        f.blocks@.len() <= u32::MAX,
    ensures
        table(r@) == labels_of(f.blocks@),
{
    let mut out: Vec<(String, u32)> = Vec::new();
    let mut i: usize = 0;
    assert(f.blocks@.take(0) =~= Seq::<LBlock>::empty());
    while i < f.blocks.len()
        invariant
            i <= f.blocks@.len() <= u32::MAX,
            table(out@) == labels_of(f.blocks@.take(i as int)),
        decreases f.blocks@.len() - i,
    {
        assert(f.blocks@.take(i + 1).drop_last() =~= f.blocks@.take(i as int));
        let e: (String, u32) = (f.blocks[i].label.clone(), i as u32);
        proof {
            lemma_table_push(out@, e);
        }
        out.push(e);
        i += 1;
    }
    assert(f.blocks@.take(f.blocks@.len() as int) =~= f.blocks@);
    out
}

fn define_params(ctx: &mut Ctx, params: &Vec<LParam>) -> (r: Vec<(RegId, Type)>)
    requires
        old(ctx).next_reg + params@.len() <= u32::MAX,
    ensures
        params_of(old(ctx)@, params@) == (final(ctx)@, r@),
        final(ctx).next_reg <= old(ctx).next_reg + params@.len(),
{
    let mut out: Vec<(RegId, Type)> = Vec::new();
    let mut i: usize = 0;
    assert(params@.take(0) =~= Seq::<LParam>::empty());
    assert(out@ =~= Seq::<(RegId, Type)>::empty());
    while i < params.len()
        invariant
            i <= params@.len(),
            old(ctx).next_reg + params@.len() <= u32::MAX,
            ctx.next_reg <= old(ctx).next_reg + i,
            params_of(old(ctx)@, params@.take(i as int)) == (ctx@, out@),
        decreases params@.len() - i,
    {
        assert(params@.take(i + 1).drop_last() =~= params@.take(i as int));
        assert(params@.take(i + 1).last() == params@[i as int]);
        let r = ctx.define(&params[i].name);
        out.push((r, lower_type(&params[i].ty)));
        i += 1;
    }
    assert(params@.take(params@.len() as int) =~= params@);
    out
}

fn define_names(ctx: &mut Ctx, names: &Vec<&String>)
    requires
        old(ctx).next_reg + names@.len() <= u32::MAX,
    ensures
        final(ctx)@ == defined_all(old(ctx)@, texts(names@)),
        final(ctx).next_reg <= old(ctx).next_reg + names@.len(),
{
    let mut i: usize = 0;
    let ghost all = texts(names@);
    assert(all.take(0) =~= Seq::<Seq<char>>::empty());
    while i < names.len()
        invariant
            i <= names@.len(),
            all == texts(names@),
            old(ctx).next_reg + names@.len() <= u32::MAX,
            ctx.next_reg <= old(ctx).next_reg + i,
            ctx@ == defined_all(old(ctx)@, all.take(i as int)),
        decreases names@.len() - i,
    {
        assert(all.take(i + 1).drop_last() =~= all.take(i as int));
        assert(all.take(i + 1).last() == names@[i as int]@);
        let _ = ctx.define(names[i]);
        i += 1;
    }
    assert(all.take(all.len() as int) =~= all);
}

proof fn lemma_blocks_stop(c: CtxView, blocks: Seq<LBlock>, k: int)
    requires
        0 <= k <= blocks.len(),
        blocks_of(c, blocks.take(k)) is Err,
    ensures
        blocks_of(c, blocks) == blocks_of(c, blocks.take(k)),
    decreases blocks.len(),
{
    if k == blocks.len() {
        assert(blocks.take(k) =~= blocks);
    } else {
        assert(blocks.drop_last().take(k) =~= blocks.take(k));
        lemma_blocks_stop(c, blocks.drop_last(), k);
    }
}

proof fn lemma_blocks_cost(blocks: Seq<LBlock>, k: int)
    requires
        0 <= k <= blocks.len(),
    ensures
        blocks_cost(blocks.take(k)) <= blocks_cost(blocks),
    decreases blocks.len(),
{
    if k == blocks.len() {
        assert(blocks.take(k) =~= blocks);
    } else {
        assert(blocks.drop_last().take(k) =~= blocks.take(k));
        lemma_blocks_cost(blocks.drop_last(), k);
    }
}

fn lower_blocks(ctx: &mut Ctx, blocks: &Vec<LBlock>) -> (r: Result<Vec<BasicBlock>, Error>)
    requires
        forall|i: int| 0 <= i < blocks@.len() ==> block_well_formed(#[trigger] blocks@[i]),
        blocks@.len() <= u32::MAX,
        old(ctx).next_reg + blocks_cost(blocks@) <= u32::MAX,
    ensures
        match r {
            Ok(v) => blocks_of(old(ctx)@, blocks@) == Ok::<(CtxView, Seq<BlockView>), ErrorView>(
                (final(ctx)@, block_views(v@)),
            ),
            Err(e) => blocks_of(old(ctx)@, blocks@) == Err::<(CtxView, Seq<BlockView>), ErrorView>(
                e@,
            ),
        },
{
    let mut out: Vec<BasicBlock> = Vec::new();
    let mut i: usize = 0;
    assert(blocks@.take(0) =~= Seq::<LBlock>::empty());
    assert(block_views(out@) =~= Seq::<BlockView>::empty());
    while i < blocks.len()
        invariant
            i <= blocks@.len() <= u32::MAX,
            forall|k: int| 0 <= k < blocks@.len() ==> block_well_formed(#[trigger] blocks@[k]),
            old(ctx).next_reg + blocks_cost(blocks@) <= u32::MAX,
            ctx.next_reg <= old(ctx).next_reg + blocks_cost(blocks@.take(i as int)),
            blocks_of(old(ctx)@, blocks@.take(i as int)) == Ok::<
                (CtxView, Seq<BlockView>),
                ErrorView,
            >((ctx@, block_views(out@))),
        decreases blocks@.len() - i,
    {
        assert(blocks@.take(i + 1).drop_last() =~= blocks@.take(i as int));
        assert(blocks@.take(i + 1).last() == blocks@[i as int]);
        proof {
            lemma_blocks_cost(blocks@, i + 1);
        }
        match lower_block(ctx, &blocks[i], BlockId(i as u32)) {
            Ok(b) => {
                let ghost before = out@;
                let ghost bv = b@;
                out.push(b);
                assert(block_views(out@) =~= block_views(before).push(bv));
            },
            Err(e) => {
                proof {
                    lemma_blocks_stop(old(ctx)@, blocks@, i + 1);
                }
                return Err(e);
            },
        }
        i += 1;
    }
    assert(blocks@.take(blocks@.len() as int) =~= blocks@);
    Ok(out)
}

/// Lower a function, with the contracts and hints of its parameters.
pub fn lower_function(
    f: &LFunc,
    id: FuncId,
    func_ids: &Vec<(String, u32)>,
    debuginfo: &DebugInfo,
) -> (r: Result<(Function, Vec<(u32, PtrContract)>, Vec<(u32, (u64, u32))>), Error>)
    requires
        lowerable(*f),
    ensures
        match r {
            Ok((func, contracts, hints)) => {
                &&& function_of(*f, id, table(func_ids@), debuginfo@) == Ok::<
                    FunctionView,
                    ErrorView,
                >(func@)
                &&& contracts@ == contracts_of(*f, debuginfo@, f.params@.len() as int)
                &&& hints@ == hints_of(*f, debuginfo@, f.params@.len() as int)
            },
            Err(e) => function_of(*f, id, table(func_ids@), debuginfo@) == Err::<
                FunctionView,
                ErrorView,
            >(e@),
        },
{
    proof {
        reveal(function_of);
    }
    let mut ctx = Ctx {
        regs: Vec::new(),
        next_reg: 0,
        blocks: block_labels(f),
        func: f,
        func_ids,
        checked: checked_arith_map(f),
        field_loads: owed(reference_field_loads(f, debuginfo)),
    };
    assert(ctx@ == context_of(*f, table(func_ids@), debuginfo@));
    let params = define_params(&mut ctx, &f.params);
    let (contracts, hints) = all_param_facts(f, debuginfo);
    let names = all_names(f);
    assert(texts(names@).len() == names@.len());
    define_names(&mut ctx, &names);
    match lower_blocks(&mut ctx, &f.blocks) {
        Ok(blocks) => Ok(
            (
                Function {
                    id,
                    name: f.name.clone(),
                    params,
                    ret_ty: lower_type(&f.ret),
                    blocks,
                    entry: BlockId(0),
                },
                contracts,
                hints,
            ),
        ),
        Err(e) => Err(e),
    }
}

// ---- modules ----

/// The size of the fields without padding.
pub open spec fn packed_size(f: LFields) -> int
    decreases f,
{
    match f {
        LFields::End => 0,
        LFields::Field { ty, rest } => size_of_type(type_of(*ty)) + packed_size(*rest),
    }
}

/// The size of a global, where it is known.
pub open spec fn global_size(g: LGlobal) -> Option<u64> {
    let n = if g.packed {
        match g.ty {
            LType::Struct(fields) => packed_size(fields),
            _ => 0,
        }
    } else {
        size_of_type(type_of(g.ty))
    };
    if 0 < n <= u64::MAX {
        Some(n as u64)
    } else {
        None
    }
}

/// The most bytes of a global that uses of it may dereference.
pub open spec fn hinted(hints: Seq<(String, u64)>, name: Seq<char>) -> u64
    decreases hints.len(),
{
    if hints.len() == 0 {
        0
    } else {
        let n = hinted(hints.drop_last(), name);
        if hints.last().0@ == name && hints.last().1 > n {
            hints.last().1
        } else {
            n
        }
    }
}

/// A size that is at least the bytes that uses may dereference.
pub open spec fn raised(size: u64, hint: u64) -> u64 {
    if hint > size {
        hint
    } else {
        size
    }
}

/// The globals of known size. What uses of a global may dereference raises its size.
pub open spec fn globals_of(globals: Seq<LGlobal>, hints: Seq<(String, u64)>) -> Seq<(String, GlobalDef)>
    decreases globals.len(),
{
    if globals.len() == 0 {
        Seq::empty()
    } else {
        let s = globals_of(globals.drop_last(), hints);
        let g = globals.last();
        match global_size(g) {
            Some(size) => s.push(
                (
                    g.name,
                    GlobalDef {
                        size: raised(size, hinted(hints, g.name@)),
                        align: if g.align > 1 {
                            g.align
                        } else {
                            1
                        },
                        writable: g.writable,
                    },
                ),
            ),
            None => s,
        }
    }
}

/// The function of each name.
pub open spec fn ids_of(funcs: Seq<LFunc>) -> Map<Seq<char>, u32>
    decreases funcs.len(),
{
    if funcs.len() == 0 {
        Map::empty()
    } else {
        ids_of(funcs.drop_last()).insert(funcs.last().name@, (funcs.len() - 1) as u32)
    }
}

/// The functions that the first `n` fields of a global point to, by byte offset.
pub open spec fn pointers_in(g: LGlobal, ids: Map<Seq<char>, u32>, n: int) -> Seq<(u64, FuncId)>
    decreases n,
{
    if n <= 0 {
        Seq::empty()
    } else {
        let s = pointers_in(g, ids, n - 1);
        match (pointed_to(g.symbols@[n - 1], ids), field_at(g, n - 1)) {
            (Some(id), Some(at)) => s.push((at, FuncId(id))),
            _ => s,
        }
    }
}

/// The function that a symbol names.
pub open spec fn pointed_to(symbol: Option<String>, ids: Map<Seq<char>, u32>) -> Option<u32> {
    match symbol {
        Some(name) => entry(ids, name@),
        None => None,
    }
}

/// The byte offset of a field of a global.
pub open spec fn field_at(g: LGlobal, k: int) -> Option<u64> {
    if k <= u32::MAX {
        field_offset(type_of(g.ty), k as u32)
    } else {
        None
    }
}

/// The functions that each constant global points to; a global that points to none is left
/// out.
pub open spec fn pointers_of(globals: Seq<LGlobal>, ids: Map<Seq<char>, u32>) -> Seq<
    (Seq<char>, Seq<(u64, FuncId)>),
>
    decreases globals.len(),
{
    if globals.len() == 0 {
        Seq::empty()
    } else {
        let s = pointers_of(globals.drop_last(), ids);
        let g = globals.last();
        let p = pointers_in(g, ids, g.symbols@.len() as int);
        if !g.writable && p.len() > 0 {
            s.push((g.name@, p))
        } else {
            s
        }
    }
}

/// Tables of function pointers as mathematical values.
pub open spec fn pointer_views(s: Seq<(String, Vec<(u64, FuncId)>)>) -> Seq<
    (Seq<char>, Seq<(u64, FuncId)>),
> {
    Seq::new(s.len(), |i: int| (s[i].0@, s[i].1@))
}

/// Functions and what is recorded of them.
#[verifier::ext_equal]
pub struct Recorded {
    pub functions: Seq<FunctionView>,
    pub unanalyzed: Seq<(Seq<char>, Seq<char>)>,
    pub contracts: Seq<((FuncId, u32), PtrContract)>,
    pub hints: Seq<((FuncId, u32), (u64, u32))>,
    pub internal: Seq<FuncId>,
}

/// Entries by function and position.
pub open spec fn keyed<V>(id: FuncId, s: Seq<(u32, V)>) -> Seq<((FuncId, u32), V)> {
    Seq::new(s.len(), |i: int| ((id, s[i].0), s[i].1))
}

/// After one more function: it is recorded, or the reason why it was not analysed is.
pub open spec fn record(r: Recorded, f: LFunc, id: FuncId, ids: Map<Seq<char>, u32>, di: DiView) -> Recorded {
    match function_of(f, id, ids, di) {
        Ok(func) => Recorded {
            functions: r.functions.push(func),
            contracts: r.contracts + keyed(id, contracts_of(f, di, f.params@.len() as int)),
            hints: r.hints + keyed(id, hints_of(f, di, f.params@.len() as int)),
            internal: if f.internal {
                r.internal.push(id)
            } else {
                r.internal
            },
            ..r
        },
        Err(e) => Recorded { unanalyzed: r.unanalyzed.push((f.name@, e.shown())), ..r },
    }
}

/// After functions, numbered from 0 on.
pub open spec fn records(r: Recorded, funcs: Seq<LFunc>, ids: Map<Seq<char>, u32>, di: DiView) -> Recorded
    decreases funcs.len(),
{
    if funcs.len() == 0 {
        r
    } else {
        record(
            records(r, funcs.drop_last(), ids, di),
            funcs.last(),
            FuncId((funcs.len() - 1) as u32),
            ids,
            di,
        )
    }
}

/// The texts of pairs of strings.
pub open spec fn pair_texts(s: Seq<(String, String)>) -> Seq<(Seq<char>, Seq<char>)> {
    Seq::new(s.len(), |i: int| (s[i].0@, s[i].1@))
}

/// The functions of a list as mathematical values.
pub open spec fn function_views(s: Seq<Function>) -> Seq<FunctionView> {
    Seq::new(s.len(), |i: int| s[i]@)
}

/// What a module records of its functions.
pub open spec fn recorded_in(m: Module) -> Recorded {
    Recorded {
        functions: function_views(m.functions@),
        unanalyzed: pair_texts(m.unanalyzed@),
        contracts: m.param_contracts@,
        hints: m.raw_ptr_hints@,
        internal: m.internal@,
    }
}

/// What is recorded before any function is lowered: those that were not parsed.
pub open spec fn recorded_at_start(unanalyzed: Seq<(String, String)>) -> Recorded {
    Recorded {
        functions: Seq::empty(),
        unanalyzed: pair_texts(unanalyzed),
        contracts: Seq::empty(),
        hints: Seq::empty(),
        internal: Seq::empty(),
    }
}

fn packed_bytes(f: &LFields) -> (r: Option<u64>)
    ensures
        match r {
            Some(n) => n == packed_size(*f),
            None => packed_size(*f) > u64::MAX,
        },
    decreases f,
{
    match f {
        LFields::End => Some(0),
        LFields::Field { ty, rest } => match (lower_type(ty).size_bytes(), packed_bytes(rest)) {
            (Some(a), Some(b)) => a.checked_add(b),
            _ => None,
        },
    }
}

fn global_bytes(g: &LGlobal) -> (r: Option<u64>)
    ensures
        r == global_size(*g),
{
    let n: Option<u64> = if g.packed {
        match &g.ty {
            LType::Struct(fields) => packed_bytes(fields),
            _ => None,
        }
    } else {
        lower_type(&g.ty).size_bytes()
    };
    match n {
        Some(s) => if s > 0 {
            Some(s)
        } else {
            None
        },
        None => None,
    }
}

fn largest_hint(hints: &Vec<(String, u64)>, name: &String) -> (r: u64)
    ensures
        r == hinted(hints@, name@),
{
    let mut most: u64 = 0;
    let mut i: usize = 0;
    while i < hints.len()
        invariant
            i <= hints@.len(),
            most == hinted(hints@.take(i as int), name@),
        decreases hints@.len() - i,
    {
        assert(hints@.take(i + 1).drop_last() =~= hints@.take(i as int));
        if hints[i].0 == *name && hints[i].1 > most {
            most = hints[i].1;
        }
        i += 1;
    }
    assert(hints@.take(hints@.len() as int) =~= hints@);
    most
}

fn lower_globals(globals: &Vec<LGlobal>, hints: &Vec<(String, u64)>) -> (r: Vec<
    (String, GlobalDef),
>)
    ensures
        r@ == globals_of(globals@, hints@),
{
    let mut out: Vec<(String, GlobalDef)> = Vec::new();
    let mut i: usize = 0;
    assert(globals@.take(0) =~= Seq::<LGlobal>::empty());
    assert(out@ =~= Seq::<(String, GlobalDef)>::empty());
    while i < globals.len()
        invariant
            i <= globals@.len(),
            out@ == globals_of(globals@.take(i as int), hints@),
        decreases globals@.len() - i,
    {
        assert(globals@.take(i + 1).drop_last() =~= globals@.take(i as int));
        assert(globals@.take(i + 1).last() == globals@[i as int]);
        let g = &globals[i];
        if let Some(size) = global_bytes(g) {
            let align: u64 = if g.align > 1 {
                g.align
            } else {
                1
            };
            let hint: u64 = largest_hint(hints, &g.name);
            let bytes: u64 = if hint > size {
                hint
            } else {
                size
            };
            out.push((g.name.clone(), GlobalDef { size: bytes, align, writable: g.writable }));
        }
        i += 1;
    }
    assert(globals@.take(globals@.len() as int) =~= globals@);
    out
}

fn function_ids(funcs: &Vec<LFunc>) -> (r: Vec<(String, u32)>)
    requires
        funcs@.len() <= u32::MAX,
    ensures
        table(r@) == ids_of(funcs@),
{
    let mut out: Vec<(String, u32)> = Vec::new();
    let mut i: usize = 0;
    assert(funcs@.take(0) =~= Seq::<LFunc>::empty());
    while i < funcs.len()
        invariant
            i <= funcs@.len() <= u32::MAX,
            table(out@) == ids_of(funcs@.take(i as int)),
        decreases funcs@.len() - i,
    {
        assert(funcs@.take(i + 1).drop_last() =~= funcs@.take(i as int));
        let e: (String, u32) = (funcs[i].name.clone(), i as u32);
        proof {
            lemma_table_push(out@, e);
        }
        out.push(e);
        i += 1;
    }
    assert(funcs@.take(funcs@.len() as int) =~= funcs@);
    out
}

/// A copy of pairs of strings.
pub fn copy_pairs(s: &Vec<(String, String)>) -> (r: Vec<(String, String)>)
    ensures
        pair_texts(r@) == pair_texts(s@),
{
    let mut out: Vec<(String, String)> = Vec::new();
    let mut i: usize = 0;
    while i < s.len()
        invariant
            i <= s@.len(),
            out@ == s@.take(i as int),
        decreases s@.len() - i,
    {
        out.push((s[i].0.clone(), s[i].1.clone()));
        assert(out@ =~= s@.take(i + 1));
        i += 1;
    }
    assert(s@.take(s@.len() as int) =~= s@);
    out
}

/// Append entries under a function.
pub fn append_keyed<V: Copy>(out: &mut Vec<((FuncId, u32), V)>, id: FuncId, s: &Vec<(u32, V)>)
    ensures
        final(out)@ == old(out)@ + keyed(id, s@),
{
    let mut i: usize = 0;
    assert(out@ + keyed(id, s@.take(0)) =~= out@);
    while i < s.len()
        invariant
            i <= s@.len(),
            out@ == old(out)@ + keyed(id, s@.take(i as int)),
        decreases s@.len() - i,
    {
        let v: V = s[i].1;
        out.push(((id, s[i].0), v));
        assert(out@ =~= old(out)@ + keyed(id, s@.take(i + 1)));
        i += 1;
    }
    assert(s@.take(s@.len() as int) =~= s@);
}

fn field_pointers(g: &LGlobal, ids: &Vec<(String, u32)>) -> (r: Vec<(u64, FuncId)>)
    ensures
        r@ == pointers_in(*g, table(ids@), g.symbols@.len() as int),
{
    let ty = lower_type(&g.ty);
    let mut out: Vec<(u64, FuncId)> = Vec::new();
    let mut k: usize = 0;
    while k < g.symbols.len()
        invariant
            k <= g.symbols@.len(),
            ty == type_of(g.ty),
            out@ == pointers_in(*g, table(ids@), k as int),
        decreases g.symbols@.len() - k,
    {
        if let Some(name) = &g.symbols[k] {
            if let Some(id) = lookup(ids, name) {
                if k <= 0xffff_ffff {
                    if let Some(at) = ty.struct_field_offset(k as u32) {
                        out.push((at, FuncId(*id)));
                    }
                }
            }
        }
        k += 1;
    }
    out
}

fn lower_pointers(globals: &Vec<LGlobal>, ids: &Vec<(String, u32)>) -> (r: Vec<
    (String, Vec<(u64, FuncId)>),
>)
    ensures
        pointer_views(r@) == pointers_of(globals@, table(ids@)),
{
    let mut out: Vec<(String, Vec<(u64, FuncId)>)> = Vec::new();
    let mut i: usize = 0;
    assert(globals@.take(0) =~= Seq::<LGlobal>::empty());
    assert(pointer_views(out@) =~= Seq::empty());
    while i < globals.len()
        invariant
            i <= globals@.len(),
            pointer_views(out@) == pointers_of(globals@.take(i as int), table(ids@)),
        decreases globals@.len() - i,
    {
        assert(globals@.take(i + 1).drop_last() =~= globals@.take(i as int));
        assert(globals@.take(i + 1).last() == globals@[i as int]);
        let g = &globals[i];
        let p = field_pointers(g, ids);
        if !g.writable && p.len() > 0 {
            let ghost before = out@;
            let ghost pv = p@;
            out.push((g.name.clone(), p));
            assert(pointer_views(out@) =~= pointer_views(before).push((g.name@, pv)));
        }
        i += 1;
    }
    assert(globals@.take(globals@.len() as int) =~= globals@);
    out
}

/// Lower one function into a module.
fn lower_into(
    module: &mut Module,
    f: &LFunc,
    id: FuncId,
    ids: &Vec<(String, u32)>,
    di: &DebugInfo,
)
    requires
        lowerable(*f),
    ensures
        recorded_in(*final(module)) == record(
            recorded_in(*old(module)),
            *f,
            id,
            table(ids@),
            di@,
        ),
        final(module).name == old(module).name,
        final(module).globals == old(module).globals,
        final(module).global_fn_ptrs == old(module).global_fn_ptrs,
{
    match lower_function(f, id, ids, di) {
        Ok((func, contracts, hints)) => {
            append_keyed(&mut module.param_contracts, id, &contracts);
            append_keyed(&mut module.raw_ptr_hints, id, &hints);
            if f.internal {
                module.internal.push(id);
            }
            let ghost fv = func@;
            module.functions.push(func);
            assert(function_views(module.functions@) =~= function_views(old(module).functions@).push(
                fv,
            ));
        },
        Err(e) => {
            module.unanalyzed.push((f.name.clone(), e.render()));
            assert(pair_texts(module.unanalyzed@) =~= pair_texts(old(module).unanalyzed@).push(
                (f.name@, e@.shown()),
            ));
        },
    }
}

/// Lower a parsed module. A function that cannot be lowered is recorded with the reason.
pub fn lower_module(m: &LModule, name: &str) -> (r: Result<Module, Error>)
    requires
        m.funcs@.len() <= u32::MAX,
        forall|i: int| 0 <= i < m.funcs@.len() ==> lowerable(#[trigger] m.funcs@[i]),
    ensures
        r matches Ok(module) && {
            &&& module.name@ == name@
            &&& module.globals@ == globals_of(m.globals@, m.deref_hints@)
            &&& pointer_views(module.global_fn_ptrs@) == pointers_of(
                m.globals@,
                ids_of(m.funcs@),
            )
            &&& recorded_in(module) == records(
                recorded_at_start(m.unanalyzed@),
                m.funcs@,
                ids_of(m.funcs@),
                m.debuginfo@,
            )
        },
{
    let ids = function_ids(&m.funcs);
    let mut module = Module::new(name);
    module.unanalyzed = copy_pairs(&m.unanalyzed);
    module.globals = lower_globals(&m.globals, &m.deref_hints);
    module.global_fn_ptrs = lower_pointers(&m.globals, &ids);
    assert(recorded_in(module) =~= recorded_at_start(m.unanalyzed@));
    let mut i: usize = 0;
    assert(m.funcs@.take(0) =~= Seq::<LFunc>::empty());
    while i < m.funcs.len()
        invariant
            i <= m.funcs@.len() <= u32::MAX,
            forall|k: int| 0 <= k < m.funcs@.len() ==> lowerable(#[trigger] m.funcs@[k]),
            table(ids@) == ids_of(m.funcs@),
            module.name@ == name@,
            module.globals@ == globals_of(m.globals@, m.deref_hints@),
            pointer_views(module.global_fn_ptrs@) == pointers_of(m.globals@, ids_of(m.funcs@)),
            recorded_in(module) == records(
                recorded_at_start(m.unanalyzed@),
                m.funcs@.take(i as int),
                ids_of(m.funcs@),
                m.debuginfo@,
            ),
        decreases m.funcs@.len() - i,
    {
        assert(m.funcs@.take(i + 1).drop_last() =~= m.funcs@.take(i as int));
        assert(m.funcs@.take(i + 1).last() == m.funcs@[i as int]);
        lower_into(&mut module, &m.funcs[i], FuncId(i as u32), &ids, &m.debuginfo);
        i += 1;
    }
    assert(m.funcs@.take(m.funcs@.len() as int) =~= m.funcs@);
    Ok(module)
}

// ---- laws ----

proof fn lemma_recorded_ids(r: Recorded, funcs: Seq<LFunc>, ids: Map<Seq<char>, u32>, di: DiView)
    requires
        r.functions.len() == 0,
        funcs.len() <= u32::MAX,
    ensures
        ({
            let s = records(r, funcs, ids, di).functions;
            &&& forall|i: int| 0 <= i < s.len() ==> (#[trigger] s[i]).id.0 < funcs.len()
            &&& forall|i: int, j: int|
                0 <= i < j < s.len() ==> (#[trigger] s[i]).id.0 < (#[trigger] s[j]).id.0
        }),
    decreases funcs.len(),
{
    reveal(function_of);
    if funcs.len() > 0 {
        lemma_recorded_ids(r, funcs.drop_last(), ids, di);
    }
}

/// No two functions of a lowered module share an id.
pub proof fn lowered_ids_are_distinct(m: LModule, module: Module)
    requires
        m.funcs@.len() <= u32::MAX,
        recorded_in(module) == records(
            recorded_at_start(m.unanalyzed@),
            m.funcs@,
            ids_of(m.funcs@),
            m.debuginfo@,
        ),
    ensures
        module.ids_distinct(),
{
    lemma_recorded_ids(recorded_at_start(m.unanalyzed@), m.funcs@, ids_of(m.funcs@), m.debuginfo@);
    let s = recorded_in(module).functions;
    assert forall|i: int, j: int| 0 <= i < j < module.functions@.len() implies module.functions@[i].id
        != module.functions@[j].id by {
        assert(s[i].id.0 < s[j].id.0);
    }
}

/// Function `i` keeps its number and its name, or it is recorded under its name, with the
/// reason, behind the first `n` functions that were not analysed.
pub open spec fn accounted(
    s: Recorded,
    n: int,
    funcs: Seq<LFunc>,
    ids: Map<Seq<char>, u32>,
    di: DiView,
    i: int,
) -> bool {
    match function_of(funcs[i], FuncId(i as u32), ids, di) {
        Ok(f) => exists|k: int|
            0 <= k < s.functions.len() && #[trigger] s.functions[k] == f && f.id == FuncId(i as u32)
                && f.name == funcs[i].name@,
        Err(e) => exists|k: int|
            n <= k < s.unanalyzed.len() && #[trigger] s.unanalyzed[k] == (
                funcs[i].name@,
                e.shown(),
            ),
    }
}

/// An outcome is recorded: a function under its number and name, or a name with the reason.
spec fn logged(
    s: Recorded,
    n: int,
    name: Seq<char>,
    id: FuncId,
    out: Result<FunctionView, ErrorView>,
) -> bool {
    match out {
        Ok(f) => exists|k: int|
            0 <= k < s.functions.len() && #[trigger] s.functions[k] == f && f.id == id && f.name
                == name,
        Err(e) => exists|k: int|
            n <= k < s.unanalyzed.len() && #[trigger] s.unanalyzed[k] == (name, e.shown()),
    }
}

/// What was recorded before stays in front.
spec fn extended(t: Recorded, s: Recorded) -> bool {
    &&& t.functions.len() <= s.functions.len()
    &&& t.unanalyzed.len() <= s.unanalyzed.len()
    &&& forall|k: int| 0 <= k < t.functions.len() ==> #[trigger] s.functions[k] == t.functions[k]
    &&& forall|k: int| 0 <= k < t.unanalyzed.len() ==> #[trigger] s.unanalyzed[k] == t.unanalyzed[k]
}

proof fn lemma_logged_more(
    t: Recorded,
    s: Recorded,
    n: int,
    name: Seq<char>,
    id: FuncId,
    out: Result<FunctionView, ErrorView>,
)
    requires
        logged(t, n, name, id, out),
        extended(t, s),
        0 <= n,
    ensures
        logged(s, n, name, id, out),
{
    match out {
        Ok(f) => {
            let k = choose|k: int|
                0 <= k < t.functions.len() && #[trigger] t.functions[k] == f && f.id == id && f.name
                    == name;
            assert(s.functions[k] == f);
        },
        Err(e) => {
            let k = choose|k: int|
                n <= k < t.unanalyzed.len() && #[trigger] t.unanalyzed[k] == (name, e.shown());
            assert(s.unanalyzed[k] == t.unanalyzed[k]);
        },
    }
}

proof fn lemma_logged_last(
    t: Recorded,
    f: LFunc,
    id: FuncId,
    ids: Map<Seq<char>, u32>,
    di: DiView,
    n: int,
)
    requires
        0 <= n <= t.unanalyzed.len(),
    ensures
        ({
            let s = record(t, f, id, ids, di);
            &&& extended(t, s)
            &&& s.functions.len() + s.unanalyzed.len() == t.functions.len() + t.unanalyzed.len() + 1
            &&& logged(s, n, f.name@, id, function_of(f, id, ids, di))
        }),
{
    reveal(function_of);
    let s = record(t, f, id, ids, di);
    match function_of(f, id, ids, di) {
        Ok(x) => {
            assert(s.functions[t.functions.len() as int] == x);
        },
        Err(e) => {
            assert(s.unanalyzed[t.unanalyzed.len() as int] == (f.name@, e.shown()));
        },
    }
}

/// Every function is accounted for: it is lowered under its own number, or recorded with the
/// reason why it was not analysed. What was recorded before stays in front.
pub proof fn no_function_is_dropped(
    r: Recorded,
    funcs: Seq<LFunc>,
    ids: Map<Seq<char>, u32>,
    di: DiView,
)
    ensures
        ({
            let s = records(r, funcs, ids, di);
            &&& s.functions.len() + s.unanalyzed.len() == r.functions.len() + r.unanalyzed.len()
                + funcs.len()
            &&& r.functions.len() <= s.functions.len()
            &&& r.unanalyzed.len() <= s.unanalyzed.len()
            &&& s.functions.take(r.functions.len() as int) == r.functions
            &&& s.unanalyzed.take(r.unanalyzed.len() as int) == r.unanalyzed
            &&& forall|i: int|
                0 <= i < funcs.len() ==> #[trigger] accounted(
                    s,
                    r.unanalyzed.len() as int,
                    funcs,
                    ids,
                    di,
                    i,
                )
        }),
{
    let s = records(r, funcs, ids, di);
    let n = r.unanalyzed.len() as int;
    lemma_extended(r, funcs, ids, di);
    assert(s.functions.take(r.functions.len() as int) =~= r.functions);
    assert(s.unanalyzed.take(n) =~= r.unanalyzed);
    assert forall|i: int| 0 <= i < funcs.len() implies #[trigger] accounted(
        s,
        n,
        funcs,
        ids,
        di,
        i,
    ) by {
        lemma_recorded_at(r, funcs, ids, di, i);
    }
}

proof fn lemma_extended(r: Recorded, funcs: Seq<LFunc>, ids: Map<Seq<char>, u32>, di: DiView)
    ensures
        extended(r, records(r, funcs, ids, di)),
        ({
            let s = records(r, funcs, ids, di);
            s.functions.len() + s.unanalyzed.len() == r.functions.len() + r.unanalyzed.len()
                + funcs.len()
        }),
    decreases funcs.len(),
{
    if funcs.len() > 0 {
        let t = records(r, funcs.drop_last(), ids, di);
        lemma_extended(r, funcs.drop_last(), ids, di);
        let id = FuncId((funcs.len() - 1) as u32);
        lemma_logged_last(t, funcs.last(), id, ids, di, 0);
    }
}

proof fn lemma_recorded_at(
    r: Recorded,
    funcs: Seq<LFunc>,
    ids: Map<Seq<char>, u32>,
    di: DiView,
    i: int,
)
    requires
        0 <= i < funcs.len(),
    ensures
        logged(
            records(r, funcs, ids, di),
            r.unanalyzed.len() as int,
            funcs[i].name@,
            FuncId(i as u32),
            function_of(funcs[i], FuncId(i as u32), ids, di),
        ),
    decreases funcs.len(),
{
    let n = r.unanalyzed.len() as int;
    let front = funcs.drop_last();
    let t = records(r, front, ids, di);
    let last = FuncId((funcs.len() - 1) as u32);
    lemma_extended(r, front, ids, di);
    lemma_logged_last(t, funcs.last(), last, ids, di, n);
    if i < front.len() {
        lemma_recorded_at(r, front, ids, di, i);
        assert(front[i] == funcs[i]);
        lemma_logged_more(
            t,
            records(r, funcs, ids, di),
            n,
            funcs[i].name@,
            FuncId(i as u32),
            function_of(funcs[i], FuncId(i as u32), ids, di),
        );
    } else {
        assert(funcs[i] == funcs.last());
    }
}

} // verus!
