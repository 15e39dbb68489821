//! What the parameters of a MIR function promise.

use crate::ir::{size_of_type, stride_of, PtrContract, RegId, SizeSpec, Type};
use crate::mir::ast::MType;
use crate::mir::lower::ir_type;
use crate::mir::module::{lengths_of, signature, with_lengths, Signature};
use vstd::prelude::*;

verus! {

/// What a reference or a pointer points to, and whether it may be written through it.
pub open spec fn referred(t: MType) -> Option<(MType, bool)> {
    match t {
        MType::Ref(inner, w) => Some((*inner, w)),
        MType::Ptr(inner, w) => Some((*inner, w)),
        _ => None,
    }
}

/// A size is that of what is pointed to: the bytes of a type, the elements of a slice, or none
/// that is known of a type that is not modelled.
pub open spec fn size_matches(size: SizeSpec, inner: MType) -> bool {
    match size {
        SizeSpec::Bytes(n) => !(inner is Slice) && n > 0 && n == size_of_type(ir_type(inner)),
        SizeSpec::ParamElements { elem_size, .. } => match inner {
            MType::Slice(e) => 0 < stride_of(ir_type(*e)) <= u64::MAX ==> elem_size == stride_of(
                ir_type(*e),
            ),
            _ => false,
        },
        SizeSpec::Opaque => inner is Other,
    }
}

/// A contract is that of the parameter at its position: readable, writable where the reference
/// is mutable, and as large as what the reference refers to.
pub open spec fn of_reference(params: Seq<(u32, MType)>, c: (u32, PtrContract)) -> bool {
    &&& c.0 < params.len()
    &&& referred(params[c.0 as int].1) is Some
    &&& c.1.readable
    &&& c.1.writable == (referred(params[c.0 as int].1)->0).1
    &&& size_matches(c.1.size, (referred(params[c.0 as int].1)->0).0)
}

/// A slice is the parameter at its position.
pub open spec fn of_slice(params: Seq<(u32, MType)>, s: (u32, u32, u64, bool)) -> bool {
    &&& s.0 < params.len()
    &&& params[s.0 as int].0 == s.1
    &&& referred(params[s.0 as int].1) is Some
    &&& (referred(params[s.0 as int].1)->0).1 == s.3
    &&& match (referred(params[s.0 as int].1)->0).0 {
        MType::Slice(e) => 0 < stride_of(ir_type(*e)) <= u64::MAX ==> s.2 == stride_of(ir_type(*e)),
        _ => false,
    }
}

/// The parameter that says how long a slice is was added for it: it is a number of 64 bits, in
/// the register that holds the length of the slice.
pub open spec fn has_length(
    params: Seq<(u32, MType)>,
    h: Signature,
    lengths: Map<u32, u32>,
    c: (u32, PtrContract),
) -> bool {
    match c.1.size {
        SizeSpec::ParamElements { len_param, .. } => {
            let local = params[c.0 as int].0;
            &&& params.len() <= len_param < h.params.len()
            &&& h.params[len_param as int].1 == (Type::Int { bits: 64 })
            &&& lengths.contains_key(local)
            &&& h.params[len_param as int].0 == RegId(lengths[local])
        },
        _ => true,
    }
}

/// Each local is one parameter.
pub open spec fn locals_distinct(params: Seq<(u32, MType)>) -> bool {
    forall|i: int, j: int|
        0 <= i < j < params.len() ==> (#[trigger] params[i]).0 != (#[trigger] params[j]).0
}

/// A parameter keeps its register, and is a pointer where it was a reference or a pointer.
pub open spec fn keeps_param(p: (RegId, Type), q: (u32, MType)) -> bool {
    &&& p.0 == RegId(q.0)
    &&& p.1 is Ptr <==> referred(q.1) is Some
}

proof fn lemma_not_pointer(t: MType)
    requires
        referred(t) is None,
        !(t is Slice),
    ensures
        !(ir_type(t) is Ptr),
{
}

proof fn lemma_signature(params: Seq<(u32, MType)>)
    requires
        params.len() <= u32::MAX,
        forall|i: int| 0 <= i < params.len() ==> !((#[trigger] params[i]).1 is Slice),
    ensures
        ({
            let g = signature(params);
            &&& g.params.len() == params.len()
            &&& forall|i: int| 0 <= i < params.len() ==> keeps_param(#[trigger] g.params[i], params[i])
            &&& forall|k: int|
                0 <= k < g.contracts.len() ==> of_reference(params, #[trigger] g.contracts[k])
                    && !(g.contracts[k].1.size is ParamElements)
            &&& forall|k: int| 0 <= k < g.slices.len() ==> of_slice(params, #[trigger] g.slices[k])
            &&& forall|a: int, b: int|
                0 <= a < b < g.slices.len() ==> (#[trigger] g.slices[a]).0 < (
                #[trigger] g.slices[b]).0
        }),
    decreases params.len(),
{
    if params.len() > 0 {
        let front = params.drop_last();
        assert forall|i: int| 0 <= i < front.len() implies !((#[trigger] front[i]).1 is Slice) by {
            assert(!(params[i].1 is Slice));
        }
        lemma_signature(front);
        let g0 = signature(front);
        let g = signature(params);
        let n = front.len() as int;
        let t = params[n].1;
        assert(!(t is Slice));
        if referred(t) is None {
            lemma_not_pointer(t);
        }
        assert forall|i: int| 0 <= i < params.len() implies keeps_param(
            #[trigger] g.params[i],
            params[i],
        ) by {
            if i < n {
                assert(g.params[i] == g0.params[i]);
                assert(keeps_param(g0.params[i], front[i]));
            }
        }
        assert forall|k: int| 0 <= k < g.contracts.len() implies of_reference(
            params,
            #[trigger] g.contracts[k],
        ) && !(g.contracts[k].1.size is ParamElements) by {
            if k < g0.contracts.len() {
                assert(g.contracts[k] == g0.contracts[k]);
                assert(of_reference(front, g0.contracts[k]));
                assert(params[g0.contracts[k].0 as int] == front[g0.contracts[k].0 as int]);
            }
        }
        assert forall|k: int| 0 <= k < g.slices.len() implies of_slice(params, #[trigger] g.slices[k]) by {
            if k < g0.slices.len() {
                assert(g.slices[k] == g0.slices[k]);
                assert(of_slice(front, g0.slices[k]));
                assert(params[g0.slices[k].0 as int] == front[g0.slices[k].0 as int]);
            }
        }
        assert forall|a: int, b: int| 0 <= a < b < g.slices.len() implies (#[trigger] g.slices[a]).0
            < (#[trigger] g.slices[b]).0 by {
            assert(g.slices[a] == g0.slices[a]);
            assert(of_slice(front, g0.slices[a]));
            if b < g0.slices.len() {
                assert(g.slices[b] == g0.slices[b]);
            }
        }
    }
}

proof fn lemma_lengths(params: Seq<(u32, MType)>, first: int, n: int)
    requires
        params.len() <= u32::MAX,
        forall|i: int| 0 <= i < params.len() ==> !((#[trigger] params[i]).1 is Slice),
        locals_distinct(params),
        0 <= first,
        0 <= n <= signature(params).slices.len(),
        first + n <= u32::MAX,
        params.len() + n <= u32::MAX,
    ensures
        ({
            let g = signature(params);
            let h = with_lengths(g, first, n);
            let l = lengths_of(g, first, n);
            &&& h.params.len() == params.len() + n
            &&& forall|i: int| 0 <= i < params.len() ==> #[trigger] h.params[i] == g.params[i]
            &&& forall|k: int|
                0 <= k < h.contracts.len() ==> of_reference(params, #[trigger] h.contracts[k])
                    && has_length(params, h, l, h.contracts[k])
            &&& forall|x: u32| #[trigger]
                l.contains_key(x) ==> exists|k: int| 0 <= k < n && (#[trigger] g.slices[k]).1 == x
        }),
    decreases n,
{
    let g = signature(params);
    lemma_signature(params);
    if n > 0 {
        lemma_lengths(params, first, n - 1);
        let h0 = with_lengths(g, first, n - 1);
        let h = with_lengths(g, first, n);
        let l0 = lengths_of(g, first, n - 1);
        let l = lengths_of(g, first, n);
        let s = g.slices[n - 1];
        assert(of_slice(params, s));
        assert forall|i: int| 0 <= i < params.len() implies #[trigger] h.params[i] == g.params[i] by {
            assert(h.params[i] == h0.params[i]);
        }
        assert(!l0.contains_key(s.1)) by {
            if l0.contains_key(s.1) {
                let k = choose|k: int| 0 <= k < n - 1 && (#[trigger] g.slices[k]).1 == s.1;
                assert(of_slice(params, g.slices[k]));
                assert(g.slices[k].0 < g.slices[n - 1].0);
                assert(params[g.slices[k].0 as int].0 != params[s.0 as int].0);
            }
        }
        assert forall|k: int| 0 <= k < h.contracts.len() implies of_reference(
            params,
            #[trigger] h.contracts[k],
        ) && has_length(params, h, l, h.contracts[k]) by {
            if k < h0.contracts.len() {
                let c = h0.contracts[k];
                assert(h.contracts[k] == c);
                assert(of_reference(params, c) && has_length(params, h0, l0, c));
                if let SizeSpec::ParamElements { len_param, .. } = c.1.size {
                    assert(h.params[len_param as int] == h0.params[len_param as int]);
                    assert(l.contains_key(params[c.0 as int].0));
                }
            }
        }
        assert forall|x: u32| #[trigger] l.contains_key(x) implies exists|k: int|
            0 <= k < n && (#[trigger] g.slices[k]).1 == x by {
            if x == s.1 {
                assert(g.slices[n - 1].1 == x);
            } else {
                assert(l0.contains_key(x));
                let k = choose|k: int| 0 <= k < n - 1 && (#[trigger] g.slices[k]).1 == x;
                assert(g.slices[k].1 == x);
            }
        }
    }
}

/// The contracts of a function say what its references promise, and no more. Parameters keep
/// their order and registers, and the length of a slice is the parameter that was added for it.
pub proof fn contracts_say_what_references_promise(params: Seq<(u32, MType)>, first: int)
    requires
        forall|i: int| 0 <= i < params.len() ==> !((#[trigger] params[i]).1 is Slice),
        locals_distinct(params),
        0 <= first,
        first + params.len() <= u32::MAX,
        2 * params.len() <= u32::MAX,
    ensures
        ({
            let g = signature(params);
            let n = g.slices.len() as int;
            let h = with_lengths(g, first, n);
            &&& h.params.len() == params.len() + n
            &&& forall|i: int| 0 <= i < params.len() ==> keeps_param(#[trigger] h.params[i], params[i])
            &&& forall|k: int|
                0 <= k < h.contracts.len() ==> of_reference(params, #[trigger] h.contracts[k])
                    && has_length(params, h, lengths_of(g, first, n), h.contracts[k])
        }),
{
    let g = signature(params);
    let n = g.slices.len() as int;
    lemma_signature(params);
    lemma_few_slices(params);
    lemma_lengths(params, first, n);
    let h = with_lengths(g, first, n);
    assert forall|i: int| 0 <= i < params.len() implies keeps_param(#[trigger] h.params[i], params[i]) by {
        assert(h.params[i] == g.params[i]);
    }
}

proof fn lemma_few_slices(params: Seq<(u32, MType)>)
    ensures
        signature(params).slices.len() <= params.len(),
    decreases params.len(),
{
    if params.len() > 0 {
        lemma_few_slices(params.drop_last());
    }
}

/// A contract is for the parameter at a position.
pub open spec fn is_for(c: (u32, PtrContract), i: int) -> bool {
    c.0 == i
}

/// Every reference to a type of a known size, or to a slice, has a contract.
pub proof fn references_have_contracts(params: Seq<(u32, MType)>, first: int, i: int)
    requires
        params.len() <= u32::MAX,
        0 <= i < params.len(),
        referred(params[i].1) matches Some((inner, _)) && (inner is Slice || 0 < size_of_type(
            ir_type(inner),
        ) <= u64::MAX),
    ensures
        ({
            let g = signature(params);
            let h = with_lengths(g, first, g.slices.len() as int);
            exists|k: int| 0 <= k < h.contracts.len() && is_for(#[trigger] h.contracts[k], i)
        }),
{
    let g = signature(params);
    lemma_listed(params, i);
    if exists|k: int| 0 <= k < g.contracts.len() && is_for(#[trigger] g.contracts[k], i) {
        let k = choose|k: int| 0 <= k < g.contracts.len() && is_for(#[trigger] g.contracts[k], i);
        lemma_kept(g, first, g.slices.len() as int, k);
    } else {
        let k = choose|k: int| 0 <= k < g.slices.len() && (#[trigger] g.slices[k]).0 == i;
        lemma_slice_kept(g, first, g.slices.len() as int, k, i);
    }
}

proof fn lemma_listed(params: Seq<(u32, MType)>, i: int)
    requires
        params.len() <= u32::MAX,
        0 <= i < params.len(),
        referred(params[i].1) matches Some((inner, _)) && (inner is Slice || 0 < size_of_type(
            ir_type(inner),
        ) <= u64::MAX),
    ensures
        ({
            let g = signature(params);
            (exists|k: int| 0 <= k < g.contracts.len() && is_for(#[trigger] g.contracts[k], i)) || (
            exists|k: int| 0 <= k < g.slices.len() && (#[trigger] g.slices[k]).0 == i)
        }),
    decreases params.len(),
{
    let front = params.drop_last();
    let g0 = signature(front);
    let g = signature(params);
    if i < front.len() {
        assert(front[i] == params[i]);
        lemma_listed(front, i);
        if exists|k: int| 0 <= k < g0.contracts.len() && is_for(#[trigger] g0.contracts[k], i) {
            let k = choose|k: int|
                0 <= k < g0.contracts.len() && is_for(#[trigger] g0.contracts[k], i);
            assert(is_for(g.contracts[k], i));
        } else {
            let k = choose|k: int| 0 <= k < g0.slices.len() && (#[trigger] g0.slices[k]).0 == i;
            assert(g.slices[k].0 == i);
        }
    } else {
        let inner = (referred(params[i].1)->0).0;
        if inner is Slice {
            assert(g.slices[g0.slices.len() as int].0 == i);
        } else {
            assert(is_for(g.contracts[g0.contracts.len() as int], i));
        }
    }
}

proof fn lemma_kept(g: Signature, first: int, n: int, k: int)
    requires
        0 <= k < g.contracts.len(),
    ensures
        with_lengths(g, first, n).contracts.len() >= g.contracts.len(),
        with_lengths(g, first, n).contracts[k] == g.contracts[k],
    decreases n,
{
    if n > 0 {
        lemma_kept(g, first, n - 1, k);
    }
}

proof fn lemma_slice_kept(g: Signature, first: int, n: int, k: int, i: int)
    requires
        0 <= k < n <= g.slices.len(),
        g.slices[k].0 == i,
    ensures
        ({
            let h = with_lengths(g, first, n);
            exists|j: int| 0 <= j < h.contracts.len() && is_for(#[trigger] h.contracts[j], i)
        }),
    decreases n,
{
    let h0 = with_lengths(g, first, n - 1);
    let h = with_lengths(g, first, n);
    if k < n - 1 {
        lemma_slice_kept(g, first, n - 1, k, i);
        let j = choose|j: int| 0 <= j < h0.contracts.len() && is_for(#[trigger] h0.contracts[j], i);
        assert(is_for(h.contracts[j], i));
    } else {
        assert(is_for(h.contracts[h0.contracts.len() as int], i));
    }
}

} // verus!
