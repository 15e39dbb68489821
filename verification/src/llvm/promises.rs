//! What the parameters of an LLVM function promise.

use crate::ir::SizeSpec;
use crate::llvm::ast::{LFunc, LInst};
use crate::llvm::debuginfo::DiView;
use crate::llvm::facts::{contract_of, contracts_of, hint_of, largest_pointee, shown_pointee};
use crate::llvm::laws::{bytes, types_keep_their_layout};
use crate::llvm::lower::type_of;
use crate::llvm::slices::sized;
use vstd::prelude::*;

verus! {

/// The contract of a parameter promises what its attributes do: as many bytes as may be
/// dereferenced or as the buffer has, at the given alignment, not to be written where the
/// parameter is only read, and not to be read where it is only written. A number of elements is
/// said by the next parameter, which is a number. A parameter that is no pointer has none, and
/// one whose attributes say how many bytes it has does.
pub proof fn contracts_keep_attributes(f: LFunc, di: DiView, i: int)
    requires
        0 <= i < f.params@.len() <= u32::MAX,
    ensures
        ({
            let p = f.params@[i];
            &&& contract_of(f, di, i) matches Some(c) ==> {
                &&& p.ty is Ptr
                &&& p.deref is Some ==> c.size == SizeSpec::Bytes(p.deref->0)
                &&& p.deref is None && p.abi_buf is Some ==> (c.size matches SizeSpec::Bytes(n) && n
                    == bytes(p.abi_buf->0))
                &&& p.align is Some ==> c.align == p.align->0
                &&& p.align is None ==> c.align == 1
                &&& p.readonly ==> !c.writable
                &&& p.writeonly <==> !c.readable
                &&& c.assumption is None && !p.readonly ==> c.writable
                &&& c.size is ParamElements ==> i + 1 < f.params@.len() && c.size->len_param == i + 1
                    && f.params@[i + 1].ty is Int
            }
            &&& p.ty is Ptr && p.deref is Some ==> contract_of(f, di, i) is Some
        }),
{
    let p = f.params@[i];
    if p.abi_buf is Some {
        types_keep_their_layout(p.abi_buf->0);
        crate::ir::lemma_layout_bounds(type_of(p.abi_buf->0));
    }
}

/// A parameter is not both: one with a contract has no hint.
pub proof fn hints_are_for_parameters_without_contract(f: LFunc, di: DiView, i: int)
    requires
        0 <= i < f.params@.len(),
        hint_of(f, di, i) is Some,
    ensures
        contract_of(f, di, i) is None,
        f.params@[i].ty is Ptr,
{
}

/// What a pointer is taken to point to covers every use: it is as large as the largest type that
/// an instruction shows the pointer to point to.
pub proof fn hints_cover_every_use(insts: Seq<LInst>, name: Seq<char>, k: int)
    requires
        0 <= k < insts.len(),
        shown_pointee(insts[k], name) matches Some(t) && sized(t) is Some && sized(t)->0 > 0,
    ensures
        largest_pointee(insts, name) is Some,
        (largest_pointee(insts, name)->0).0 >= sized(shown_pointee(insts[k], name)->0)->0,
    decreases insts.len(),
{
    if k < insts.len() - 1 {
        assert(insts.drop_last()[k] == insts[k]);
        hints_cover_every_use(insts.drop_last(), name, k);
    }
}

/// What a pointer is taken to point to is what some instruction shows.
pub proof fn hints_come_from_a_use(insts: Seq<LInst>, name: Seq<char>)
    requires
        largest_pointee(insts, name) is Some,
    ensures
        exists|k: int|
            0 <= k < insts.len() && shown_pointee(#[trigger] insts[k], name) is Some && sized(
                shown_pointee(insts[k], name)->0,
            ) == Some((largest_pointee(insts, name)->0).0),
    decreases insts.len(),
{
    let front = insts.drop_last();
    if largest_pointee(front, name) is Some && largest_pointee(insts, name) == largest_pointee(
        front,
        name,
    ) {
        hints_come_from_a_use(front, name);
        let k = choose|k: int|
            0 <= k < front.len() && shown_pointee(#[trigger] front[k], name) is Some && sized(
                shown_pointee(front[k], name)->0,
            ) == Some((largest_pointee(front, name)->0).0);
        assert(insts[k] == front[k]);
    } else {
        let n = insts.len() - 1;
        assert(shown_pointee(insts[n], name) is Some);
    }
}

/// The contracts of a function are those of its parameters, each under its own number.
pub proof fn contracts_are_numbered(f: LFunc, di: DiView, n: int, i: int)
    requires
        0 <= i < n <= f.params@.len() <= u32::MAX,
    ensures
        contract_of(f, di, i) matches Some(c) ==> contracts_of(f, di, n).contains((i as u32, c)),
        forall|k: int|
            0 <= k < contracts_of(f, di, n).len() ==> (#[trigger] contracts_of(f, di, n)[k]).0 < n
                && contract_of(f, di, contracts_of(f, di, n)[k].0 as int) == Some(
                contracts_of(f, di, n)[k].1,
            ),
    decreases n,
{
    let s = contracts_of(f, di, n);
    let s0 = contracts_of(f, di, n - 1);
    if i < n - 1 {
        contracts_are_numbered(f, di, n - 1, i);
        if let Some(c) = contract_of(f, di, i) {
            let k = choose|k: int| 0 <= k < s0.len() && s0[k] == (i as u32, c);
            assert(s[k] == (i as u32, c));
        }
    } else {
        if n > 1 {
            contracts_are_numbered(f, di, n - 1, 0);
        }
        if let Some(c) = contract_of(f, di, i) {
            assert(s[s0.len() as int] == (i as u32, c));
        }
    }
    assert forall|k: int| 0 <= k < s.len() implies (#[trigger] s[k]).0 < n && contract_of(
        f,
        di,
        s[k].0 as int,
    ) == Some(s[k].1) by {
        if k < s0.len() {
            assert(s[k] == s0[k]);
        }
    }
}

} // verus!
