//! What calls return, where pointers to fields lead, and what bulk writes leave behind.

use crate::affine::{lemma_weigh_remove, params_in, AffineView};
use crate::blast::{folding_keeps_values, value, Valuation};
use crate::exec::check::{region_at, side};
use crate::exec::eval::{
    affine_of, affine_sum, argument, offset_argument, signed_lit, zero, SceneView,
};
use crate::exec::machine::MachineView;
use crate::exec::sound::{
    landing, lemma_add, lemma_lit, lemma_side, lemma_sle, number, sized, takes,
};
use crate::exec::step::{bulk_written, constant_length, field_pointed};
use crate::exec::value::{premises, PTR_WIDTH, PathView, SymPointer, SymValue};
use crate::expr::{bin, lit, sle, width_of, BvOp, Ex};
use crate::ir::{MemKind, Operand, RegId, Type};
use crate::meaning::{low_bits_are_a_remainder, wrapped};
use crate::sorted::{ascending, increasing};
use vstd::arithmetic::div_mod::{
    lemma_add_mod_noop, lemma_mod_bound, lemma_mod_twice, lemma_mul_mod_noop, lemma_sub_mod_noop,
};
use vstd::arithmetic::power2::{lemma_pow2_pos, pow2};
use vstd::prelude::*;

verus! {

// ---- results ----

proof fn lemma_signed_lit(c: i128, v: Valuation)
    ensures
        value(signed_lit(c as int), v) == wrapped(c as int, 64),
        width_of(signed_lit(c as int)) == 64,
{
    let p = pow2(64) as int;
    lemma_pow2_pos(64);
    reveal_with_fuel(value, 2);
    reveal_with_fuel(width_of, 2);
    if c >= 0 {
        low_bits_are_a_remainder(64, c as u128);
    } else {
        let n = (-c) as u128;
        low_bits_are_a_remainder(64, n);
        let e = lit(PTR_WIDTH, n);
        assert(value(e, v) == wrapped(n as int, 64));
        lemma_lit(0, v);
        folding_keeps_values(BvOp::Sub, zero(), e, v);
        lemma_mod_bound(value(zero(), v) - value(e, v), p);
        lemma_sub_mod_noop(0, n as int, p);
        lemma_mod_twice(n as int, p);
        vstd::arithmetic::div_mod::lemma_small_mod(0, pow2(64));
    }
}

proof fn lemma_product(a: Ex, b: Ex, v: Valuation)
    requires
        width_of(a) == 64,
    ensures
        value(bin(BvOp::Mul, a, b), v) == wrapped((value(a, v) * value(b, v)) as int, 64),
        width_of(bin(BvOp::Mul, a, b)) == 64,
{
    folding_keeps_values(BvOp::Mul, a, b, v);
    reveal_with_fuel(value, 2);
    reveal_with_fuel(width_of, 2);
    lemma_pow2_pos(64);
    lemma_mod_bound((value(a, v) * value(b, v)) as int, pow2(64) as int);
}

proof fn lemma_in_order(p: spec_fn(int) -> bool, n: nat)
    ensures
        increasing(ascending(p, n)),
        forall|x: int| #[trigger] ascending(p, n).contains(x) <==> 0 <= x < n && p(x),
    decreases n,
{
    if n > 0 {
        let k = n - 1;
        let s0 = ascending(p, k as nat);
        let s = ascending(p, n);
        lemma_in_order(p, k as nat);
        assert forall|i: int| 0 <= i < s0.len() implies #[trigger] s0[i] < k by {
            assert(s0.contains(s0[i]));
        }
        assert forall|x: int| #[trigger] s.contains(x) <==> 0 <= x < n && p(x) by {
            if s.contains(x) && x != k {
                let i = choose|i: int| 0 <= i < s.len() && s[i] == x;
                assert(s0[i] == x);
                assert(s0.contains(x));
            }
            if 0 <= x < n && p(x) {
                if x == k {
                    assert(s[s0.len() as int] == x);
                } else {
                    assert(s0.contains(x));
                    let i = choose|i: int| 0 <= i < s0.len() && s0[i] == x;
                    assert(s[i] == x);
                }
            }
        }
    }
}

/// The first parameters of a list.
spec fn leading(ks: Seq<int>, n: int) -> Set<usize>
    decreases n,
{
    if n <= 0 {
        Set::empty()
    } else {
        leading(ks, n - 1).insert(ks[n - 1] as usize)
    }
}

proof fn lemma_leading(ks: Seq<int>, n: int)
    requires
        0 <= n <= ks.len(),
        forall|i: int| 0 <= i < ks.len() ==> 0 <= #[trigger] ks[i] <= usize::MAX,
    ensures
        leading(ks, n).finite(),
        forall|k: usize| #[trigger]
            leading(ks, n).contains(k) <==> exists|i: int| 0 <= i < n && #[trigger] ks[i] == k,
    decreases n,
{
    if n > 0 {
        lemma_leading(ks, n - 1);
        assert forall|k: usize| #[trigger] leading(ks, n).contains(k) <==> exists|i: int|
            0 <= i < n && #[trigger] ks[i] == k by {
            if leading(ks, n).contains(k) {
                if k == ks[n - 1] as usize {
                    assert(ks[n - 1] == k);
                } else {
                    assert(leading(ks, n - 1).contains(k));
                    let i = choose|i: int| 0 <= i < n - 1 && #[trigger] ks[i] == k;
                    assert(ks[i] == k);
                }
            }
        }
    }
}

/// Every argument that a form depends on is a number of 64 bits.
pub open spec fn numeric(a: AffineView, args: Seq<SymValue>) -> bool {
    forall|k: usize| #[trigger]
        a.terms.contains_key(k) ==> k < args.len() && args[k as int] is Scalar && width_of(
            args[k as int]->Scalar_0,
        ) == 64
}

/// The value of an argument.
pub open spec fn argument_value(args: Seq<SymValue>, v: Valuation) -> spec_fn(usize) -> int {
    |k: usize| value(args[k as int]->Scalar_0, v) as int
}

proof fn lemma_sum(m: MachineView, a: AffineView, args: Seq<SymValue>, n: int, v: Valuation)
    requires
        numeric(a, args),
        0 <= n <= params_in(a.terms).len(),
    ensures
        ({
            let e = affine_sum(m, a, args, n).1;
            &&& width_of(e) == 64
            &&& value(e, v) == wrapped(
                a.constant + a.weigh(leading(params_in(a.terms), n), argument_value(args, v)),
                64,
            )
        }),
    decreases n,
{
    let ks = params_in(a.terms);
    let p = argument_value(args, v);
    let w = pow2(64) as int;
    lemma_pow2_pos(64);
    lemma_in_order(|k: int| a.terms.contains_key(k as usize), (usize::MAX + 1) as nat);
    assert forall|i: int| 0 <= i < ks.len() implies 0 <= #[trigger] ks[i] <= usize::MAX
        && a.terms.contains_key(ks[i] as usize) by {
        assert(ks.contains(ks[i]));
    }
    if n <= 0 {
        lemma_signed_lit(a.constant, v);
    } else {
        lemma_sum(m, a, args, n - 1, v);
        let (m1, acc) = affine_sum(m, a, args, n - 1);
        let k = ks[n - 1];
        let j = k as usize;
        assert(a.terms.contains_key(j));
        let x = argument(m1, args, k).1;
        let c = a.terms[j];
        lemma_signed_lit(c, v);
        lemma_product(x, signed_lit(c as int), v);
        lemma_add(acc, bin(BvOp::Mul, x, signed_lit(c as int)), v);
        lemma_leading(ks, n - 1);
        lemma_leading(ks, n);
        let s = leading(ks, n);
        assert(!leading(ks, n - 1).contains(j)) by {
            if leading(ks, n - 1).contains(j) {
                let i = choose|i: int| 0 <= i < n - 1 && #[trigger] ks[i] == j;
                assert(ks[i] < ks[n - 1]);
            }
        }
        assert(s.remove(j) =~= leading(ks, n - 1));
        lemma_weigh_remove(a, s, p, j);
        let before = a.constant + a.weigh(leading(ks, n - 1), p);
        let y = value(x, v) as int;
        let cc = c as int;
        assert(wrapped(y * wrapped(cc, 64), 64) == wrapped(y * cc, 64)) by {
            lemma_mul_mod_noop(y, cc, w);
            lemma_mul_mod_noop(y, wrapped(cc, 64), w);
            lemma_mod_twice(cc, w);
        }
        assert(wrapped(wrapped(before, 64) + wrapped(y * cc, 64), 64) == wrapped(before + y * cc, 64))
            by {
            lemma_add_mod_noop(before, y * cc, w);
        }
        assert(p(j) == y);
        assert(y * cc == a.coeff(j) * p(j)) by (nonlinear_arith)
            requires
                a.coeff(j) == cc,
                p(j) == y,
        ;
    }
}

/// A number that a callee returns as an affine form of its arguments is that form of their
/// values, modulo the address space.
pub proof fn results_are_their_form(m: MachineView, a: AffineView, args: Seq<SymValue>, v: Valuation)
    requires
        numeric(a, args),
    ensures
        value(affine_of(m, a, args).1, v) == wrapped(a.at(argument_value(args, v)), 64),
        width_of(affine_of(m, a, args).1) == 64,
{
    let ks = params_in(a.terms);
    let n = ks.len() as int;
    lemma_sum(m, a, args, n, v);
    lemma_in_order(|k: int| a.terms.contains_key(k as usize), (usize::MAX + 1) as nat);
    assert forall|i: int| 0 <= i < ks.len() implies 0 <= #[trigger] ks[i] <= usize::MAX by {
        assert(ks.contains(ks[i]));
    }
    lemma_leading(ks, n);
    assert(leading(ks, n) =~= a.terms.dom()) by {
        assert forall|k: usize| #[trigger] leading(ks, n).contains(k) <==> a.terms.dom().contains(k) by {
            if leading(ks, n).contains(k) {
                let i = choose|i: int| 0 <= i < n && #[trigger] ks[i] == k;
                assert(ks.contains(ks[i]));
            }
            if a.terms.contains_key(k) {
                assert(ks.contains(k as int));
                let i = choose|i: int| 0 <= i < ks.len() && ks[i] == k;
                assert(ks[i] == k);
            }
        }
    }
}

/// A pointer that a callee returns at an offset from an argument points into the argument's
/// region, that far from where the argument points.
pub proof fn returned_pointers_are_offset_arguments(
    m: MachineView,
    arg: usize,
    a: AffineView,
    args: Seq<SymValue>,
    ty: Type,
    v: Valuation,
)
    requires
        numeric(a, args),
        arg < args.len(),
        args[arg as int] matches SymValue::Ptr(b) && sized(b),
    ensures
        offset_argument(m, arg, a, args, ty).1 matches SymValue::Ptr(p) && landing(p, v).region
            == landing(args[arg as int]->Ptr_0, v).region && landing(p, v).offset == wrapped(
            landing(args[arg as int]->Ptr_0, v).offset + a.at(argument_value(args, v)),
            64,
        ),
{
    let b = args[arg as int]->Ptr_0;
    let (m1, delta) = affine_of(m, a, args);
    results_are_their_form(m, a, args, v);
    lemma_add(b.offset, delta, v);
    lemma_side(b, delta, v);
    let p = offset_argument(m, arg, a, args, ty).1->Ptr_0;
    assert(landing(p, v).region == landing(side(b, delta), v).region && landing(p, v).offset
        == landing(side(b, delta), v).offset) by {
        assert(p.prov == b.prov && p.offset == side(b, delta).offset);
    }
    lemma_pow2_pos(64);
    vstd::arithmetic::div_mod::lemma_add_mod_noop_right(
        landing(b, v).offset,
        a.at(argument_value(args, v)),
        pow2(64) as int,
    );
}

// ---- fields ----

/// A pointer to a field of a known region lies in that region: what is assumed besides is that
/// the field ends inside it.
pub proof fn field_pointers_lie_in_their_region(
    m: MachineView,
    s: PathView,
    dst: RegId,
    base: SymPointer,
    field: u32,
    size: u64,
    align: u64,
    v: Valuation,
)
    requires
        region_at(s, base.prov) is Some,
        ({
            let s1 = field_pointed(m, s, dst, base, field, size, align).1;
            s1.env[dst.0] matches SymValue::Ptr(p) && landing(p, v).offset + size <= i64::MAX
        }),
    ensures
        ({
            let s1 = field_pointed(m, s, dst, base, field, size, align).1;
            &&& s1.env.contains_key(dst.0)
            &&& s1.env[dst.0] matches SymValue::Ptr(p) && landing(p, v).region == landing(base, v).region
                && p.align >= 1 && (takes(s1, v) <==> takes(s, v) && landing(p, v).offset + size
                <= number((region_at(s, base.prov)->0).size, v))
            &&& s1.regions == s.regions
            &&& s1.heap == s.heap
        }),
{
    let r = region_at(s, base.prov)->0;
    let off = crate::exec::machine::field_offset(m, base.prov->Region_0, field, size).1;
    let s1 = field_pointed(m, s, dst, base, field, size, align).1;
    vstd::arithmetic::power2::lemma2_to64();
    crate::exec::sound::lemma_lit(off, v);
    let total = (off + size) as u64;
    lemma_lit(total, v);
    let end = lit(PTR_WIDTH, (off as u128 + size as u128) as u128);
    assert(end == lit(PTR_WIDTH, total as u128));
    lemma_sle(end, r.size, v);
    let n = premises(s).len() as int;
    assert(premises(s1) =~= premises(s).push(sle(end, r.size)));
    if takes(s1, v) {
        assert forall|i: int| 0 <= i < n implies crate::blast::holds(#[trigger] premises(s)[i], v) by {
            assert(crate::blast::holds(premises(s1)[i], v));
        }
        assert(crate::blast::holds(premises(s1)[n], v));
    }
}

// ---- bulk writes ----

/// A bulk write leaves at most one store behind, that of the bytes that it wrote: as many as it
/// is long, where its destination points. The path stays exact only where the bytes were copied
/// or come from a user, and registers keep their values.
pub proof fn bulk_writes_forget_stores(
    sc: SceneView,
    m: MachineView,
    s: PathView,
    kind: MemKind,
    dst: Operand,
    src: Option<Operand>,
    len: Operand,
)
    ensures
        ({
            let s1 = bulk_written(sc, m, s, kind, dst, src, len).1;
            &&& s1.heap.len() <= 1
            &&& s1.heap.len() == 1 ==> constant_length(len) == Some(s1.heap[0].size)
            &&& s1.env == s.env
            &&& s1.regions.len() == s.regions.len()
            &&& s1.exact ==> s.exact && (kind is Copy || kind is Move || kind is UserFill)
            &&& kind is UserFill ==> s1.heap.len() == 0
            &&& s1.pathcond == s.pathcond
            &&& s1.facts == s.facts
        }),
{
}

} // verus!
