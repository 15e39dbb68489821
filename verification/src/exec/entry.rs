//! What is known of memory when a function is entered.

use crate::blast::{value, Valuation};
use crate::exec::effects::lemma_mul;
use crate::exec::eval::zero;
use crate::exec::machine::MachineView;
use crate::exec::sound::{landing, lemma_lit, lemma_sle, number, takes};
use crate::exec::start::{
    contracted_param, contract_at, field_seeded, fields_seeded, global_region, plain_params,
    FieldContract,
};
use crate::numbers::at;
use crate::exec::value::{premises, with_fact, PathView, SymValue};
use crate::expr::{sle, width_of, Symbol};
use crate::ir::{GlobalDef, PtrContract, RegId, SizeSpec, Type};
use vstd::arithmetic::power2::pow2;
use vstd::prelude::*;

verus! {

// ---- parameters ----

/// What was there before is still there: registers, regions and stores.
pub open spec fn keeps(a: PathView, b: PathView) -> bool {
    &&& a.env == b.env
    &&& a.regions.len() <= b.regions.len()
    &&& forall|i: int| 0 <= i < a.regions.len() ==> #[trigger] b.regions[i] == a.regions[i]
    &&& a.pathcond == b.pathcond
    &&& a.facts == b.facts
    &&& a.heap.len() <= b.heap.len()
    &&& forall|i: int| 0 <= i < a.heap.len() ==> #[trigger] b.heap[i] == a.heap[i]
}

proof fn lemma_fields_keep(s: PathView, region: usize, fcs: Seq<FieldContract>, n: int)
    ensures
        keeps(s, fields_seeded(s, region, fcs, n)),
    decreases n,
{
    if n > 0 {
        lemma_fields_keep(s, region, fcs, n - 1);
    }
}

/// How many bytes a contract promises behind a pointer: a number, or as many elements as a
/// parameter says, modulo the address space.
pub open spec fn promised(
    s: PathView,
    params: Seq<(RegId, Type)>,
    size: SizeSpec,
    v: Valuation,
    n: int,
) -> bool {
    match size {
        SizeSpec::Bytes(k) => n == k,
        SizeSpec::ParamElements { len_param, elem_size } => if len_param < params.len() {
            match at(s.env, (params[len_param as int].0).0) {
                Some(SymValue::Scalar(e)) => width_of(e) == 64 ==> n == (value(e, v) * elem_size) % (
                pow2(64) as int),
                _ => true,
            }
        } else {
            true
        },
        SizeSpec::Opaque => true,
    }
}

/// A parameter with a contract points to the start of a region of its own, which has as many
/// bytes as the contract promises, is live, and is readable and writable where the contract
/// says so. What was known before is still known, and all that is assumed besides is that the
/// size is not negative.
pub proof fn contracted_parameters_point_to_what_is_promised(
    m: MachineView,
    s: PathView,
    params: Seq<(RegId, Type)>,
    reg: RegId,
    c: PtrContract,
    fcs: Seq<FieldContract>,
    v: Valuation,
)
    requires
        s.regions.len() <= usize::MAX,
    ensures
        ({
            let s1 = contracted_param(m, s, params, reg, c, fcs).1;
            let rid = s.regions.len() as int;
            &&& s1.env.contains_key(reg.0)
            &&& s1.env[reg.0] matches SymValue::Ptr(p) && landing(p, v).region == Some(
                rid as usize,
            ) && landing(p, v).offset == 0 && p.align >= 1 && (c.align >= 1 ==> p.align == c.align)
            &&& s1.env == s.env.insert(reg.0, s1.env[reg.0])
            &&& rid < s1.regions.len()
            &&& promised(s, params, c.size, v, value(s1.regions[rid].size, v) as int)
            &&& s1.regions[rid].live
            &&& s1.regions[rid].readable == c.readable
            &&& s1.regions[rid].writable == c.writable
            &&& s1.regions[rid].contract is Some
            &&& forall|i: int| 0 <= i < rid ==> #[trigger] s1.regions[i] == s.regions[i]
            &&& width_of(s1.regions[rid].size) == 64 ==> (takes(s1, v) <==> takes(s, v) && number(
                s1.regions[rid].size,
                v,
            ) >= 0)
        }),
{
    let s1 = contracted_param(m, s, params, reg, c, fcs).1;
    let rid = s.regions.len() as int;
    let (m1, size, basis, nowrap) = crate::exec::start::contract_size(m, s, params, c.size);
    let r = crate::exec::start::contract_region(
        c,
        size,
        basis,
        if c.refutable {
            nowrap
        } else {
            None
        },
    );
    let before = crate::exec::value::bound(
        crate::exec::value::with_region(with_fact(s, sle(zero(), size)), r),
        reg.0,
        crate::exec::step::start_of(rid, crate::exec::step::at_least_one(c.align as u64)),
    );
    lemma_fields_keep(before, rid as usize, fcs, fcs.len() as int);
    assert(s1.regions[rid] == before.regions[rid]);
    assert forall|i: int| 0 <= i < rid implies #[trigger] s1.regions[i] == s.regions[i] by {
        assert(s1.regions[i] == before.regions[i]);
    }
    lemma_lit(0, v);
    match c.size {
        SizeSpec::Bytes(n) => {
            lemma_lit(n, v);
        },
        SizeSpec::ParamElements { len_param, elem_size } => {
            let len = crate::exec::start::length_param(m, s, params, len_param).1;
            if width_of(len) == 64 {
                lemma_mul(len, elem_size, v);
            }
        },
        SizeSpec::Opaque => {},
    }
    lemma_sle(zero(), size, v);
    let t = with_fact(s, sle(zero(), size));
    let n = premises(s).len() as int;
    assert(premises(s1) =~= premises(s).push(sle(zero(), size)));
    if takes(s1, v) {
        assert forall|i: int| 0 <= i < n implies crate::blast::holds(#[trigger] premises(s)[i], v) by {
            assert(crate::blast::holds(premises(s1)[i], v));
        }
        assert(crate::blast::holds(premises(s1)[n], v));
    }
}

/// A field that holds a valid pointer at every call is known to hold one at entry: the bytes at
/// its offset hold a pointer to the start of a live region of the promised size.
pub proof fn fields_hold_what_is_promised(
    s: PathView,
    region: usize,
    fc: FieldContract,
    n: u64,
    v: Valuation,
)
    requires
        fc.pointee.size == SizeSpec::Bytes(n),
        s.regions.len() <= usize::MAX,
    ensures
        ({
            let s1 = field_seeded(s, region, fc);
            let rid = s.regions.len() as int;
            &&& keeps(s, s1)
            &&& s1.regions.len() == rid + 1
            &&& value(s1.regions[rid].size, v) == n
            &&& s1.regions[rid].live
            &&& s1.regions[rid].readable == fc.pointee.readable
            &&& s1.regions[rid].writable == fc.pointee.writable
            &&& s1.heap.len() == s.heap.len() + 1
            &&& landing(s1.heap.last().target, v).region == Some(region)
            &&& landing(s1.heap.last().target, v).offset == fc.offset
            &&& s1.heap.last().size == 8
            &&& s1.heap.last().value matches SymValue::Ptr(p) && landing(p, v).region == Some(
                rid as usize,
            ) && landing(p, v).offset == 0
        }),
{
    lemma_lit(n, v);
    lemma_lit(fc.offset, v);
    lemma_lit(0, v);
}

/// The region of a global has the global's size, is live and readable, and is writable where
/// the global is.
pub proof fn globals_have_their_size(g: GlobalDef, v: Valuation)
    ensures
        value(global_region(g).size, v) == g.size,
        global_region(g).live,
        global_region(g).readable,
        global_region(g).writable == g.writable,
{
    lemma_lit(g.size, v);
}

/// A parameter of numbers without a contract may have any value: it is a variable of its own,
/// of the parameter's width. A pointer without a contract points to no region.
pub proof fn plain_parameters_are_free(
    s: PathView,
    params: Seq<(RegId, Type)>,
    cs: Seq<Option<PtrContract>>,
    i: int,
    j: int,
    v: Valuation,
)
    requires
        0 <= i < params.len(),
        0 <= j < params.len(),
        params.len() <= u64::MAX,
        contract_at(cs, i) is None,
        contract_at(cs, j) is None,
        forall|a: int, b: int|
            0 <= a < b < params.len() ==> (#[trigger] params[a]).0 != (#[trigger] params[b]).0,
    ensures
        ({
            let s1 = plain_params(s, params, cs, params.len() as int);
            let x = s1.env[(params[i].0).0];
            &&& s1.env.contains_key((params[i].0).0)
            &&& params[i].1 is Ptr ==> (x matches SymValue::Ptr(p) && landing(p, v).region is None)
            &&& !(params[i].1 is Ptr) ==> (x matches SymValue::Scalar(e) && *e is Sym && width_of(e)
                == crate::exec::value::value_width(params[i].1))
            &&& i != j && x is Scalar && s1.env[(params[j].0).0] is Scalar ==> x != s1.env[(
            params[j].0).0]
        }),
{
    lemma_plain(s, params, cs, i, params.len() as int);
    lemma_plain(s, params, cs, j, params.len() as int);
}

proof fn lemma_plain(
    s: PathView,
    params: Seq<(RegId, Type)>,
    cs: Seq<Option<PtrContract>>,
    i: int,
    n: int,
)
    requires
        0 <= i < n <= params.len(),
        params.len() <= u64::MAX,
        contract_at(cs, i) is None,
        forall|a: int, b: int|
            0 <= a < b < params.len() ==> (#[trigger] params[a]).0 != (#[trigger] params[b]).0,
    ensures
        ({
            let s1 = plain_params(s, params, cs, n);
            let ty = params[i].1;
            &&& s1.env.contains_key((params[i].0).0)
            &&& s1.env[(params[i].0).0] == if ty is Ptr {
                SymValue::Ptr(crate::exec::eval::untracked(crate::exec::value::POrigin::Param))
            } else {
                SymValue::Scalar(
                    crate::exec::machine::symbol(Symbol::Arg(i as u64), crate::exec::value::value_width(ty)),
                )
            }
        }),
    decreases n,
{
    if i < n - 1 {
        lemma_plain(s, params, cs, i, n - 1);
        assert(params[i].0 != params[n - 1].0);
    }
}

} // verus!
