//! Checks that are tied to no call: resource leaks and secret-dependent control.

use crate::ir::{
    inst_views, BasicBlock, BlockView, Function, Inst, InstView, Operand, TermView, Terminator,
};
use crate::summary::lists::{insert_label, sorted_labels};
use vstd::prelude::*;

verus! {

/// The check before an offset by a register, where a label marks secrets.
pub open spec fn index_check(i: InstView, secret: Option<u32>) -> Seq<InstView> {
    match (i, secret) {
        (InstView::Plain(Inst::PtrOffset { index: Operand::Reg(r), .. }), Some(taint)) => seq![
            InstView::Plain(Inst::SecretCheck { val: Operand::Reg(r), taint }),
        ],
        _ => Seq::empty(),
    }
}

/// Instructions with the checks before offsets.
pub open spec fn checked_body(insts: Seq<InstView>, secret: Option<u32>) -> Seq<InstView>
    decreases insts.len(),
{
    if insts.len() == 0 {
        Seq::empty()
    } else {
        checked_body(insts.drop_last(), secret) + index_check(insts.last(), secret) + seq![
            insts.last(),
        ]
    }
}

/// The checks that no resource is in one of the leaking states at a return.
pub open spec fn leak_checks(leaks: Seq<(u32, u32)>, ret: Option<Operand>) -> Seq<InstView> {
    Seq::new(
        leaks.len(),
        |i: int|
            InstView::Plain(
                Inst::TypestateLeakCheck {
                    protocol: leaks[i].0,
                    state: leaks[i].1,
                    escaping: ret,
                },
            ),
    )
}

/// The checks at the end of a block.
pub open spec fn end_checks(
    term: TermView,
    leaks: Seq<(u32, u32)>,
    secret: Option<u32>,
) -> Seq<InstView> {
    match term {
        TermView::Return(ret) => leak_checks(leaks, ret),
        TermView::CondBr { cond: Operand::Reg(r), .. } => match secret {
            Some(taint) => seq![InstView::Plain(Inst::SecretCheck { val: Operand::Reg(r), taint })],
            None => Seq::empty(),
        },
        _ => Seq::empty(),
    }
}

/// A block with its checks.
pub open spec fn checked_block(
    b: BlockView,
    leaks: Seq<(u32, u32)>,
    secret: Option<u32>,
) -> BlockView {
    BlockView {
        insts: checked_body(b.insts, secret) + end_checks(b.term, leaks, secret),
        ..b
    }
}

/// Blocks with their checks.
pub open spec fn checked_blocks(
    blocks: Seq<BlockView>,
    leaks: Seq<(u32, u32)>,
    secret: Option<u32>,
) -> Seq<BlockView> {
    Seq::new(blocks.len(), |i: int| checked_block(blocks[i], leaks, secret))
}

fn emit(out: &mut Vec<Inst>, i: Inst)
    ensures
        inst_views(final(out)@) == inst_views(old(out)@).push(i@),
{
    let ghost before = out@;
    let ghost iv = i@;
    out.push(i);
    assert(inst_views(out@) =~= inst_views(before).push(iv));
}

/// Move the instructions over, with the checks before offsets.
fn check_body(insts: &mut Vec<Inst>, taint: u32)
    ensures
        inst_views(final(insts)@) == checked_body(inst_views(old(insts)@), Some(taint)),
{
    let ghost all = inst_views(insts@);
    let mut rest: Vec<Inst> = Vec::new();
    while insts.len() > 0
        invariant
            all == inst_views(insts@) + inst_views(rest@).reverse(),
        decreases insts@.len(),
    {
        let ghost before = insts@;
        let ghost kept = rest@;
        let i = insts.pop().unwrap();
        rest.push(i);
        assert(inst_views(before) =~= inst_views(insts@).push(i@));
        assert(inst_views(rest@) =~= inst_views(kept).push(i@));
        assert(all =~= inst_views(insts@) + inst_views(rest@).reverse());
    }
    assert(inst_views(insts@) =~= Seq::<InstView>::empty());
    assert(all =~= inst_views(rest@).reverse());
    assert(all.take(0) =~= Seq::<InstView>::empty());
    while rest.len() > 0
        invariant
            rest@.len() <= all.len(),
            all.subrange(all.len() - rest@.len(), all.len() as int) == inst_views(rest@).reverse(),
            inst_views(insts@) == checked_body(all.take(all.len() - rest@.len()), Some(taint)),
        decreases rest@.len(),
    {
        let ghost n = all.len() - rest@.len();
        let ghost kept = rest@;
        let i = rest.pop().unwrap();
        let ghost iv = i@;
        assert(inst_views(kept).reverse()[0] == iv);
        assert(all[n] == all.subrange(n, all.len() as int)[0]);
        assert(all.take(n + 1).drop_last() =~= all.take(n));
        assert(all.take(n + 1).last() == iv);
        assert(inst_views(rest@).reverse() =~= inst_views(kept).reverse().subrange(
            1,
            kept.len() as int,
        ));
        assert(all.subrange(n + 1, all.len() as int) =~= all.subrange(
            n,
            all.len() as int,
        ).subrange(1, kept.len() as int));
        let ghost before = inst_views(insts@);
        if let Inst::PtrOffset { index: Operand::Reg(r), .. } = &i {
            let r2 = *r;
            emit(insts, Inst::SecretCheck { val: Operand::Reg(r2), taint });
        }
        emit(insts, i);
        assert(inst_views(insts@) =~= before + index_check(iv, Some(taint)) + seq![iv]);
    }
    assert(all.take(all.len() as int) =~= all);
}

proof fn lemma_unchecked(insts: Seq<InstView>)
    ensures
        checked_body(insts, None) == insts,
    decreases insts.len(),
{
    if insts.len() > 0 {
        lemma_unchecked(insts.drop_last());
        assert(checked_body(insts, None) =~= insts);
    } else {
        assert(checked_body(insts, None) =~= insts);
    }
}

fn copy_return(ret: &Option<Operand>) -> (r: Option<Operand>)
    ensures
        r == *ret,
{
    match ret {
        Some(o) => Some(o.copy()),
        None => None,
    }
}

fn check_end(b: &mut BasicBlock, leaks: &Vec<(u32, u32)>, secret: Option<u32>)
    ensures
        final(b)@ == (BlockView {
            insts: old(b)@.insts + end_checks(old(b)@.term, leaks@, secret),
            ..old(b)@
        }),
        final(b).inst_spans == old(b).inst_spans,
{
    let ghost before = b@.insts;
    match &b.term {
        Terminator::Return(ret) => {
            let ghost rv = *ret;
            let ret2 = copy_return(ret);
            let mut i: usize = 0;
            assert(before + leak_checks(leaks@, rv).take(0) =~= before);
            while i < leaks.len()
                invariant
                    i <= leaks@.len(),
                    ret2 == rv,
                    b.term == old(b).term,
                    b.id == old(b).id,
                    b.params == old(b).params,
                    b.inst_spans == old(b).inst_spans,
                    inst_views(b.insts@) == before + leak_checks(leaks@, rv).take(i as int),
                decreases leaks@.len() - i,
            {
                emit(
                    &mut b.insts,
                    Inst::TypestateLeakCheck {
                        protocol: leaks[i].0,
                        state: leaks[i].1,
                        escaping: copy_return(&ret2),
                    },
                );
                assert(inst_views(b.insts@) =~= before + leak_checks(leaks@, rv).take(i + 1));
                i += 1;
            }
            assert(leak_checks(leaks@, rv).take(leaks@.len() as int) =~= leak_checks(leaks@, rv));
        },
        Terminator::CondBr { cond: Operand::Reg(r), .. } => {
            let r2 = *r;
            if let Some(taint) = secret {
                emit(&mut b.insts, Inst::SecretCheck { val: Operand::Reg(r2), taint });
            }
            assert(inst_views(b.insts@) =~= before + end_checks(old(b)@.term, leaks@, secret));
        },
        _ => {
            assert(inst_views(b.insts@) =~= before + end_checks(old(b)@.term, leaks@, secret));
        },
    }
}

/// Insert the checks for leaks at every return, and for secrets at every index and branch.
/// `leaks` are the states in which a resource must not be at a return, and `secret` is the
/// label of secrets, where one is declared.
pub fn inject_leak_and_secret_checks(
    f: &mut Function,
    leaks: &Vec<(u32, u32)>,
    secret: Option<u32>,
)
    ensures
        final(f)@.blocks == checked_blocks(old(f)@.blocks, leaks@, secret),
        final(f).id == old(f).id,
        final(f).name == old(f).name,
        final(f).params == old(f).params,
        final(f).ret_ty == old(f).ret_ty,
        final(f).entry == old(f).entry,
{
    let ghost all = f@.blocks;
    let mut i: usize = 0;
    while i < f.blocks.len()
        invariant
            i <= f.blocks@.len(),
            all == old(f)@.blocks,
            f.blocks@.len() == all.len(),
            f.id == old(f).id,
            f.name == old(f).name,
            f.params == old(f).params,
            f.ret_ty == old(f).ret_ty,
            f.entry == old(f).entry,
            forall|k: int|
                0 <= k < i ==> (#[trigger] f.blocks@[k])@ == checked_block(all[k], leaks@, secret),
            forall|k: int| i <= k < all.len() ==> (#[trigger] f.blocks@[k])@ == all[k],
        decreases f.blocks@.len() - i,
    {
        proof {
            lemma_unchecked(f.blocks@[i as int]@.insts);
        }
        let ghost before = f.blocks@[i as int]@;
        if let Some(taint) = secret {
            check_body(&mut f.blocks[i].insts, taint);
        }
        assert(f.blocks@[i as int]@.insts == checked_body(before.insts, secret));
        check_end(&mut f.blocks[i], leaks, secret);
        i += 1;
    }
    assert(f@.blocks =~= checked_blocks(all, leaks@, secret));
}

/// Where contracts declare neither leaking states nor secrets, nothing is inserted.
pub proof fn nothing_declared_changes_nothing(blocks: Seq<BlockView>)
    ensures
        checked_blocks(blocks, Seq::empty(), None) == blocks,
{
    assert forall|i: int| 0 <= i < blocks.len() implies checked_block(
        blocks[i],
        Seq::empty(),
        None,
    ) == blocks[i] by {
        lemma_unchecked(blocks[i].insts);
        let b = checked_block(blocks[i], Seq::empty(), None);
        assert(end_checks(blocks[i].term, Seq::empty(), None) =~= Seq::<InstView>::empty());
        assert(b.insts =~= blocks[i].insts);
    }
    assert(checked_blocks(blocks, Seq::empty(), None) =~= blocks);
}

/// A state is declared, where both its protocol and the state itself have a label.
pub open spec fn declares(d: (Option<u32>, Option<u32>), x: (u32, u32)) -> bool {
    d == (Some(x.0), Some(x.1))
}

/// One of the declarations declares the state.
pub open spec fn declared(ds: Seq<(Option<u32>, Option<u32>)>, x: (u32, u32)) -> bool {
    exists|i: int| 0 <= i < ds.len() && declares(#[trigger] ds[i], x)
}

/// Strictly increasing pairs.
pub open spec fn increasing(s: Seq<(u32, u32)>) -> bool {
    forall|i: int, j: int|
        0 <= i < j < s.len() ==> s[i].0 < s[j].0 || (s[i].0 == s[j].0 && s[i].1 < s[j].1)
}

/// The leaking states that contracts declare, as the labels of protocol and state, in
/// order and without repetitions. A declaration of which a part has no label is left out.
pub fn leak_states(ds: &Vec<(Option<u32>, Option<u32>)>) -> (r: Vec<(u32, u32)>)
    ensures
        increasing(r@),
        forall|x: (u32, u32)| #[trigger] r@.contains(x) <==> declared(ds@, x),
{
    let mut v: Vec<(usize, u32)> = Vec::new();
    let mut i: usize = 0;
    while i < ds.len()
        invariant
            i <= ds@.len(),
            sorted_labels(v@),
            forall|y: (usize, u32)| #[trigger]
                v@.contains(y) <==> y.0 <= u32::MAX && declared(
                    ds@.take(i as int),
                    (y.0 as u32, y.1),
                ),
        decreases ds@.len() - i,
    {
        let ghost before = v@;
        let ghost next = ds@.take(i + 1);
        if let (Some(p), Some(s)) = ds[i] {
            let _ = insert_label(&mut v, (p as usize, s));
        }
        proof {
            assert forall|y: (usize, u32)| #[trigger]
                v@.contains(y) <==> y.0 <= u32::MAX && declared(next, (y.0 as u32, y.1)) by {
                let x = (y.0 as u32, y.1);
                if y.0 <= u32::MAX && declared(next, x) {
                    let k = choose|k: int| 0 <= k < next.len() && declares(#[trigger] next[k], x);
                    if k < i {
                        assert(declares(ds@.take(i as int)[k], x));
                        assert(before.contains(y));
                    } else {
                        assert(declares(ds@[i as int], x));
                    }
                    assert(v@.contains(y));
                }
                if v@.contains(y) {
                    if before.contains(y) {
                        let k = choose|k: int|
                            0 <= k < i && declares(#[trigger] ds@.take(i as int)[k], x);
                        assert(declares(next[k], x));
                    } else {
                        assert(declares(next[i as int], x));
                    }
                }
            }
        }
        i += 1;
    }
    assert(ds@.take(ds@.len() as int) =~= ds@);
    let mut out: Vec<(u32, u32)> = Vec::new();
    let mut k: usize = 0;
    assert forall|j: int| 0 <= j < v@.len() implies (#[trigger] v@[j]).0 <= u32::MAX by {
        assert(v@.contains(v@[j]));
    }
    while k < v.len()
        invariant
            k <= v@.len(),
            out@.len() == k,
            forall|j: int| 0 <= j < v@.len() ==> (#[trigger] v@[j]).0 <= u32::MAX,
            forall|j: int| 0 <= j < k ==> #[trigger] out@[j] == (v@[j].0 as u32, v@[j].1),
        decreases v@.len() - k,
    {
        assert(v@[k as int].0 <= u32::MAX);
        out.push((v[k].0 as u32, v[k].1));
        k += 1;
    }
    proof {
        assert forall|x: (u32, u32)| #[trigger] out@.contains(x) <==> declared(ds@, x) by {
            let y = (x.0 as usize, x.1);
            if out@.contains(x) {
                let j = choose|j: int| 0 <= j < out@.len() && out@[j] == x;
                assert(v@[j] == y);
                assert(v@.contains(y));
            }
            if declared(ds@, x) {
                assert(v@.contains(y));
                let j = choose|j: int| 0 <= j < v@.len() && v@[j] == y;
                assert(out@[j] == x);
            }
        }
        assert forall|i: int, j: int| 0 <= i < j < out@.len() implies out@[i].0 < out@[j].0 || (
        out@[i].0 == out@[j].0 && out@[i].1 < out@[j].1) by {
            assert(crate::summary::lists::pair_before(
                (v@[i].0 as int, v@[i].1 as int),
                (v@[j].0 as int, v@[j].1 as int),
            ));
        }
    }
    out
}

} // verus!
