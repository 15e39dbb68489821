//! What a function's own body says: its effects, the registers that alias its
//! parameters, its provenance transfers and its reference counting.

use crate::ir::{BasicBlock, Function, Inst, Operand, RValue, RegId, Terminator, Type};
use crate::summary::lists::{
    bump, count_at, insert_label, insert_pair, lists_counts, nonzero, sorted_counts, sorted_labels,
    sorted_pairs, wrap64,
};
use crate::summary::ret::{ret_of_fn, ret_summary};
use crate::summary::{ProvTransfer, Summary};
use std::collections::{HashMap, HashSet};
use vstd::prelude::*;

verus! {

broadcast use {
    vstd::std_specs::hash::group_hash_axioms,
    vstd::seq_lib::group_to_multiset_ensures,
};

// ---- the instructions of a function ----

/// The instructions of the blocks, in order.
pub open spec fn flat(blocks: Seq<BasicBlock>) -> Seq<Inst>
    decreases blocks.len(),
{
    if blocks.len() == 0 {
        Seq::empty()
    } else {
        flat(blocks.drop_last()) + blocks.last().insts@
    }
}

/// The instructions of the blocks that can return control to a caller, in order.
pub open spec fn flat_observable(blocks: Seq<BasicBlock>) -> Seq<Inst>
    decreases blocks.len(),
{
    if blocks.len() == 0 {
        Seq::empty()
    } else if blocks.last().term is Unreachable {
        flat_observable(blocks.drop_last())
    } else {
        flat_observable(blocks.drop_last()) + blocks.last().insts@
    }
}

/// What the references refer to.
pub open spec fn derefs(refs: Seq<&Inst>) -> Seq<Inst> {
    Seq::new(refs.len(), |i: int| *refs[i])
}

/// Append references to the instructions of a block.
fn append_insts<'a>(out: &mut Vec<&'a Inst>, b: &'a BasicBlock, Ghost(prior): Ghost<Seq<Inst>>)
    requires
        derefs(old(out)@) == prior,
    ensures
        derefs(final(out)@) == prior + b.insts@,
{
    let mut j: usize = 0;
    assert(prior + b.insts@.take(0) =~= prior);
    while j < b.insts.len()
        invariant
            j <= b.insts@.len(),
            derefs(out@) == prior + b.insts@.take(j as int),
        decreases b.insts@.len() - j,
    {
        let ghost before = out@;
        out.push(&b.insts[j]);
        j += 1;
        proof {
            let all = prior + b.insts@.take(j as int);
            assert(derefs(before).len() == before.len());
            assert(before.len() == prior.len() + j - 1);
            assert forall|i: int| 0 <= i < out@.len() implies derefs(out@)[i] == all[i] by {
                if i < before.len() {
                    assert(derefs(before)[i] == (prior + b.insts@.take(j - 1))[i]);
                }
            }
            assert(derefs(out@).len() == derefs(before).len() + 1);
            assert(derefs(out@) =~= all);
        }
    }
    assert(b.insts@.take(b.insts@.len() as int) =~= b.insts@);
}

/// References to a function's instructions, in order.
pub fn all_insts(f: &Function) -> (r: Vec<&Inst>)
    ensures
        derefs(r@) == flat(f.blocks@),
{
    let mut out: Vec<&Inst> = Vec::new();
    let mut i: usize = 0;
    assert(f.blocks@.take(0) =~= Seq::<BasicBlock>::empty());
    assert(derefs(out@) =~= Seq::<Inst>::empty());
    while i < f.blocks.len()
        invariant
            i <= f.blocks@.len(),
            derefs(out@) == flat(f.blocks@.take(i as int)),
        decreases f.blocks@.len() - i,
    {
        append_insts(&mut out, &f.blocks[i], Ghost(flat(f.blocks@.take(i as int))));
        i += 1;
        assert(f.blocks@.take(i as int).drop_last() =~= f.blocks@.take(i - 1));
    }
    assert(f.blocks@.take(f.blocks@.len() as int) =~= f.blocks@);
    out
}

/// References to the instructions of a function's observable blocks, in order.
pub fn observable_insts(f: &Function) -> (r: Vec<&Inst>)
    ensures
        derefs(r@) == flat_observable(f.blocks@),
{
    let mut out: Vec<&Inst> = Vec::new();
    let mut i: usize = 0;
    assert(f.blocks@.take(0) =~= Seq::<BasicBlock>::empty());
    assert(derefs(out@) =~= Seq::<Inst>::empty());
    while i < f.blocks.len()
        invariant
            i <= f.blocks@.len(),
            derefs(out@) == flat_observable(f.blocks@.take(i as int)),
        decreases f.blocks@.len() - i,
    {
        match &f.blocks[i].term {
            Terminator::Unreachable => {},
            _ => {
                append_insts(
                    &mut out,
                    &f.blocks[i],
                    Ghost(flat_observable(f.blocks@.take(i as int))),
                );
            },
        }
        i += 1;
        assert(f.blocks@.take(i as int).drop_last() =~= f.blocks@.take(i - 1));
    }
    assert(f.blocks@.take(f.blocks@.len() as int) =~= f.blocks@);
    out
}

// ---- registers that point into the function's own allocations ----

/// The register whose pointer an instruction copies or offsets into `dst`.
pub open spec fn derives(inst: Inst, dst: u32, src: u32) -> bool {
    match inst {
        Inst::PtrOffset { dst: d, base: Operand::Reg(b), .. } => d.0 == dst && b.0 == src,
        Inst::Assign { dst: d, value: RValue::Use(Operand::Reg(r)), .. } => d.0 == dst && r.0
            == src,
        Inst::Assign { dst: d, value: RValue::Cast { operand: Operand::Reg(r), .. }, .. } => d.0
            == dst && r.0 == src,
        _ => false,
    }
}

/// An instruction that allocates into `dst`.
pub open spec fn allocates(inst: Inst, dst: u32) -> bool {
    match inst {
        Inst::Alloc { dst: d, .. } => d.0 == dst,
        _ => false,
    }
}

/// Some instruction allocates into `r`, or derives it from a register with `prior`.
pub open spec fn local_step(insts: Seq<Inst>, r: u32, prior: spec_fn(u32) -> bool) -> bool {
    ||| exists|i: int| 0 <= i < insts.len() && #[trigger] allocates(insts[i], r)
    ||| exists|i: int, s: u32|
        0 <= i < insts.len() && #[trigger] derives(insts[i], r, s) && prior(s)
}

/// Register `r` holds a pointer into an allocation of the function, by at most `n`
/// steps of derivation.
pub open spec fn local_within(insts: Seq<Inst>, r: u32, n: nat) -> bool
    decreases n,
{
    n > 0 && local_step(insts, r, |s: u32| local_within(insts, s, (n - 1) as nat))
}

/// Register `r` holds a pointer into an allocation of the function.
pub open spec fn is_local(insts: Seq<Inst>, r: u32) -> bool {
    exists|n: nat| local_within(insts, r, n)
}

proof fn lemma_local_step(insts: Seq<Inst>, i: int, r: u32, s: u32)
    requires
        0 <= i < insts.len(),
        derives(insts[i], r, s),
        is_local(insts, s),
    ensures
        is_local(insts, r),
{
    let n = choose|n: nat| local_within(insts, s, n);
    let prior = |x: u32| local_within(insts, x, ((n + 1) - 1) as nat);
    assert(prior(s));
    assert(local_step(insts, r, prior));
    assert(local_within(insts, r, n + 1));
}

proof fn lemma_local_alloc(insts: Seq<Inst>, i: int, r: u32)
    requires
        0 <= i < insts.len(),
        allocates(insts[i], r),
    ensures
        is_local(insts, r),
{
    assert(local_within(insts, r, 1));
}

/// A set that holds every allocation and is closed under derivation holds every
/// local register.
proof fn lemma_closed_holds_locals(insts: Seq<Inst>, set: Set<u32>, r: u32, n: nat)
    requires
        local_within(insts, r, n),
        forall|i: int, d: u32|
            0 <= i < insts.len() && #[trigger] allocates(insts[i], d) ==> set.contains(d),
        forall|i: int, d: u32, s: u32|
            0 <= i < insts.len() && #[trigger] derives(insts[i], d, s) && set.contains(s)
                ==> set.contains(d),
    ensures
        set.contains(r),
    decreases n,
{
    let prior = |x: u32| local_within(insts, x, (n - 1) as nat);
    assert(local_step(insts, r, prior));
    if forall|i: int| 0 <= i < insts.len() ==> !(#[trigger] allocates(insts[i], r)) {
        let (i, s) = choose|i: int, s: u32|
            0 <= i < insts.len() && #[trigger] derives(insts[i], r, s) && prior(s);
        lemma_closed_holds_locals(insts, set, s, (n - 1) as nat);
    }
}

/// The registers that instructions define, as a set no larger than their number.
pub open spec fn defined_set(insts: Seq<Inst>) -> Set<u32> {
    Set::new(
        |r: u32|
            exists|i: int|
                0 <= i < insts.len() && crate::ir::defined(#[trigger] insts[i]) == Some(RegId(r)),
    )
}

proof fn lemma_defined_set(insts: Seq<Inst>)
    ensures
        defined_set(insts).finite(),
        defined_set(insts).len() <= insts.len(),
    decreases insts.len(),
{
    if insts.len() == 0 {
        assert(defined_set(insts) =~= Set::empty());
    } else {
        let head = insts.drop_last();
        lemma_defined_set(head);
        let d = crate::ir::defined(insts.last());
        let all = match d {
            Some(r) => defined_set(head).insert(r.0),
            None => defined_set(head),
        };
        assert(defined_set(insts) =~= all) by {
            assert forall|r: u32| defined_set(insts).contains(r) <==> all.contains(r) by {
                if defined_set(insts).contains(r) {
                    let i = choose|i: int|
                        0 <= i < insts.len() && crate::ir::defined(#[trigger] insts[i]) == Some(
                            RegId(r),
                        );
                    if i < head.len() {
                        assert(crate::ir::defined(head[i]) == Some(RegId(r)));
                    }
                }
                if defined_set(head).contains(r) {
                    let i = choose|i: int|
                        0 <= i < head.len() && crate::ir::defined(#[trigger] head[i]) == Some(
                            RegId(r),
                        );
                    assert(crate::ir::defined(insts[i]) == Some(RegId(r)));
                }
                if d == Some(RegId(r)) {
                    assert(crate::ir::defined(insts[insts.len() - 1]) == Some(RegId(r)));
                }
            }
        }
    }
}

/// The register that an instruction copies or offsets a pointer from, with the one
/// that it defines so.
pub fn derivation(inst: &Inst) -> (r: Option<(u32, u32)>)
    ensures
        match r {
            Some((d, s)) => derives(*inst, d, s) && crate::ir::defined(*inst) == Some(RegId(d)),
            None => forall|d: u32, s: u32| !derives(*inst, d, s),
        },
        forall|d: u32, s: u32| derives(*inst, d, s) ==> r == Some((d, s)),
{
    match inst {
        Inst::PtrOffset { dst, base, .. } => match base {
            Operand::Reg(b) => Some((dst.0, b.0)),
            _ => None,
        },
        Inst::Assign { dst, value, .. } => match value {
            RValue::Use(op) => match op {
                Operand::Reg(r) => Some((dst.0, r.0)),
                _ => None,
            },
            RValue::Cast { operand, .. } => match operand {
                Operand::Reg(r) => Some((dst.0, r.0)),
                _ => None,
            },
            _ => None,
        },
        _ => None,
    }
}

/// The registers that hold pointers into the function's own allocations.
pub fn local_alloc_regs(f: &Function) -> (set: HashSet<u32>)
    ensures
        forall|r: u32| #[trigger] set@.contains(r) <==> is_local(flat(f.blocks@), r),
{
    let insts = all_insts(f);
    let ghost all = flat(f.blocks@);
    let mut set: HashSet<u32> = HashSet::new();
    let mut changed = true;
    proof {
        lemma_defined_set(all);
        vstd::set_lib::lemma_len_subset(set@, defined_set(all));
    }
    while changed
        invariant
            derefs(insts@) == all,
            forall|r: u32| #[trigger] set@.contains(r) ==> is_local(all, r),
            set@.subset_of(defined_set(all)),
            defined_set(all).finite(),
            !changed ==> forall|i: int, d: u32|
                0 <= i < all.len() && #[trigger] allocates(all[i], d) ==> set@.contains(d),
            !changed ==> forall|i: int, d: u32, s: u32|
                0 <= i < all.len() && #[trigger] derives(all[i], d, s) && set@.contains(s)
                    ==> set@.contains(d),
        decreases
            defined_set(all).len() - set@.len(),
            (if changed {
                1int
            } else {
                0int
            }),
    {
        changed = false;
        let ghost start = set@;
        let mut i: usize = 0;
        while i < insts.len()
            invariant
                i <= insts@.len(),
                derefs(insts@) == all,
                forall|r: u32| #[trigger] set@.contains(r) ==> is_local(all, r),
                set@.subset_of(defined_set(all)),
                start.subset_of(set@),
                !changed ==> set@ == start,
                changed ==> set@.len() > start.len(),
                set@.finite(),
                start.finite(),
                !changed ==> forall|j: int, d: u32|
                    0 <= j < i && #[trigger] allocates(all[j], d) ==> set@.contains(d),
                !changed ==> forall|j: int, d: u32, s: u32|
                    0 <= j < i && #[trigger] derives(all[j], d, s) && set@.contains(s)
                        ==> set@.contains(d),
            decreases insts@.len() - i,
        {
            let inst: &Inst = insts[i];
            assert(*inst == all[i as int]);
            let derived: Option<u32> = match inst {
                Inst::Alloc { dst, .. } => {
                    proof {
                        lemma_local_alloc(all, i as int, dst.0);
                    }
                    Some(dst.0)
                },
                _ => match derivation(inst) {
                    Some((d, s)) => if set.contains(&s) {
                        proof {
                            lemma_local_step(all, i as int, d, s);
                        }
                        Some(d)
                    } else {
                        None
                    },
                    None => None,
                },
            };
            if let Some(d) = derived {
                proof {
                    assert(defined_set(all).contains(d));
                }
                if set.insert(d) {
                    changed = true;
                }
            }
            i += 1;
        }
        proof {
            vstd::set_lib::lemma_len_subset(set@, defined_set(all));
        }
    }
    proof {
        assert forall|r: u32| is_local(all, r) implies #[trigger] set@.contains(r) by {
            let n = choose|n: nat| local_within(all, r, n);
            lemma_closed_holds_locals(all, set@, r, n);
        }
    }
    set
}

// ---- registers that alias pointer parameters ----

/// The pointer parameters, each mapped to its position; a later one of the same
/// register replaces an earlier one.
pub open spec fn pointer_params(params: Seq<(RegId, Type)>) -> Map<u32, usize>
    decreases params.len(),
{
    if params.len() == 0 {
        Map::empty()
    } else {
        let rest = pointer_params(params.drop_last());
        if params.last().1 is Ptr {
            rest.insert((params.last().0).0, (params.len() - 1) as usize)
        } else {
            rest
        }
    }
}

/// The aliases after one instruction: what it derives aliases what it derives from.
pub open spec fn alias_step(inst: Inst, m: Map<u32, usize>) -> Map<u32, usize> {
    match inst {
        Inst::PtrOffset { dst, base: Operand::Reg(b), .. } if m.contains_key(b.0) => m.insert(
            dst.0,
            m[b.0],
        ),
        Inst::Assign { dst, value: RValue::Use(Operand::Reg(r)), .. } if m.contains_key(r.0) =>
            m.insert(dst.0, m[r.0]),
        Inst::Assign { dst, value: RValue::Cast { operand: Operand::Reg(r), .. }, .. }
            if m.contains_key(r.0) => m.insert(dst.0, m[r.0]),
        _ => m,
    }
}

/// The aliases after one pass over the instructions.
pub open spec fn alias_pass(insts: Seq<Inst>, m: Map<u32, usize>) -> Map<u32, usize>
    decreases insts.len(),
{
    if insts.len() == 0 {
        m
    } else {
        alias_step(insts.last(), alias_pass(insts.drop_last(), m))
    }
}

/// The aliases after `k` passes.
pub open spec fn alias_rounds(insts: Seq<Inst>, m: Map<u32, usize>, k: nat) -> Map<u32, usize>
    decreases k,
{
    if k == 0 {
        m
    } else {
        alias_pass(insts, alias_rounds(insts, m, (k - 1) as nat))
    }
}

/// Pass `k` finds a register anew.
pub open spec fn alias_grows(insts: Seq<Inst>, m: Map<u32, usize>, k: nat) -> bool {
    k > 0 && alias_rounds(insts, m, k).dom() != alias_rounds(insts, m, (k - 1) as nat).dom()
}

/// Pass `k` is the first that finds no register anew.
pub open spec fn alias_stable(insts: Seq<Inst>, m: Map<u32, usize>, k: nat) -> bool {
    &&& k > 0
    &&& !alias_grows(insts, m, k)
    &&& forall|j: nat| 0 < j < k ==> #[trigger] alias_grows(insts, m, j)
}

/// The registers that alias a pointer parameter, each mapped to its position: the
/// parameters, closed under offsets, copies and casts.
pub open spec fn param_aliases(f: Function) -> Map<u32, usize> {
    let insts = flat(f.blocks@);
    let m = pointer_params(f.params@);
    alias_rounds(insts, m, the_one(|k: nat| alias_stable(insts, m, k)))
}

/// The number with `p`.
pub open spec fn the_one(p: spec_fn(nat) -> bool) -> nat {
    choose|k: nat| #[trigger] p(k)
}

proof fn lemma_alias_stable_unique(insts: Seq<Inst>, m: Map<u32, usize>, a: nat, b: nat)
    requires
        alias_stable(insts, m, a),
        alias_stable(insts, m, b),
    ensures
        a == b,
{
    if a < b {
        assert(alias_grows(insts, m, a));
    }
    if b < a {
        assert(alias_grows(insts, m, b));
    }
}

proof fn lemma_alias_step(inst: Inst, m: Map<u32, usize>, d: u32, s: u32)
    requires
        derives(inst, d, s),
    ensures
        alias_step(inst, m) == if m.contains_key(s) {
            m.insert(d, m[s])
        } else {
            m
        },
{
}

proof fn lemma_alias_step_none(inst: Inst, m: Map<u32, usize>)
    requires
        forall|d: u32, s: u32| !derives(inst, d, s),
    ensures
        alias_step(inst, m) == m,
{
    match inst {
        Inst::PtrOffset { dst, base: Operand::Reg(b), .. } => {
            assert(derives(inst, dst.0, b.0));
        },
        Inst::Assign { dst, value: RValue::Use(Operand::Reg(r)), .. } => {
            assert(derives(inst, dst.0, r.0));
        },
        Inst::Assign { dst, value: RValue::Cast { operand: Operand::Reg(r), .. }, .. } => {
            assert(derives(inst, dst.0, r.0));
        },
        _ => {},
    }
}

/// One pass over the instructions; whether it found a register anew.
fn alias_once(insts: &Vec<&Inst>, map: &mut HashMap<u32, usize>) -> (changed: bool)
    ensures
        final(map)@ == alias_pass(derefs(insts@), old(map)@),
        changed == (final(map)@.dom() != old(map)@.dom()),
        changed ==> final(map)@.dom().len() > old(map)@.dom().len(),
        old(map)@.dom().subset_of(final(map)@.dom()),
        final(map)@.dom().subset_of(old(map)@.dom().union(defined_set(derefs(insts@)))),
{
    let ghost all = derefs(insts@);
    let ghost start = map@;
    let mut changed = false;
    let mut i: usize = 0;
    assert(all.take(0) =~= Seq::<Inst>::empty());
    while i < insts.len()
        invariant
            i <= insts@.len(),
            derefs(insts@) == all,
            map@ == alias_pass(all.take(i as int), start),
            map@.dom().subset_of(start.dom().union(defined_set(all))),
            start.dom().subset_of(map@.dom()),
            map@.dom().finite(),
            !changed ==> map@.dom() == start.dom(),
            changed ==> map@.dom().len() > start.dom().len(),
        decreases insts@.len() - i,
    {
        let inst: &Inst = insts[i];
        assert(*inst == all[i as int]);
        assert(all.take(i + 1).drop_last() =~= all.take(i as int));
        assert(all.take(i + 1).last() == all[i as int]);
        let ghost before = map@;
        match derivation(inst) {
            Some((d, s)) => {
                proof {
                    lemma_alias_step(*inst, before, d, s);
                    assert(defined_set(all).contains(d));
                }
                let found: Option<usize> = match map.get(&s) {
                    Some(p) => Some(*p),
                    None => None,
                };
                if let Some(p) = found {
                    if !map.contains_key(&d) {
                        changed = true;
                    }
                    map.insert(d, p);
                    proof {
                        if before.contains_key(d) {
                            assert(map@.dom() =~= before.dom());
                        } else {
                            assert(map@.dom() =~= before.dom().insert(d));
                        }
                    }
                }
            },
            None => {
                proof {
                    lemma_alias_step_none(*inst, before);
                }
            },
        }
        i += 1;
    }
    assert(all.take(all.len() as int) =~= all);
    changed
}

/// Which pointer parameter, by position, a register definitely aliases.
pub fn ptr_param_of(f: &Function) -> (map: HashMap<u32, usize>)
    ensures
        map@ == param_aliases(*f),
{
    let insts = all_insts(f);
    let ghost all = flat(f.blocks@);
    let ghost seed = pointer_params(f.params@);
    let mut map: HashMap<u32, usize> = HashMap::new();
    let mut k: usize = 0;
    assert(f.params@.take(0) =~= Seq::<(RegId, Type)>::empty());
    while k < f.params.len()
        invariant
            k <= f.params@.len(),
            map@ == pointer_params(f.params@.take(k as int)),
        decreases f.params@.len() - k,
    {
        assert(f.params@.take(k + 1).drop_last() =~= f.params@.take(k as int));
        if f.params[k].1.is_ptr() {
            let reg: RegId = f.params[k].0;
            map.insert(reg.0, k);
        }
        k += 1;
    }
    assert(f.params@.take(f.params@.len() as int) =~= f.params@);
    let ghost bound = map@.dom().union(defined_set(all));
    let ghost mut rounds: nat = 0;
    let mut changed = true;
    proof {
        lemma_defined_set(all);
        assert(map@.dom().finite());
        vstd::set_lib::lemma_len_subset(map@.dom(), bound);
    }
    while changed
        invariant
            derefs(insts@) == all,
            map@ == alias_rounds(all, seed, rounds),
            bound.finite(),
            map@.dom().subset_of(bound),
            defined_set(all).subset_of(bound),
            changed ==> forall|j: nat| 0 < j <= rounds ==> #[trigger] alias_grows(all, seed, j),
            !changed ==> alias_stable(all, seed, rounds),
        decreases
            bound.len() - map@.dom().len(),
            (if changed {
                1int
            } else {
                0int
            }),
    {
        changed = alias_once(&insts, &mut map);
        proof {
            rounds = rounds + 1;
            assert(alias_grows(all, seed, rounds) == changed);
            vstd::set_lib::lemma_len_subset(map@.dom(), bound);
        }
    }
    proof {
        let p = |k: nat| alias_stable(all, seed, k);
        assert(p(rounds));
        let k = the_one(p);
        lemma_alias_stable_unique(all, seed, k, rounds);
    }
    map
}

/// The position of the parameter that an operand aliases.
pub open spec fn aliased(m: Map<u32, usize>, op: Operand) -> Option<usize> {
    match op {
        Operand::Reg(r) => if m.contains_key(r.0) {
            Some(m[r.0])
        } else {
            None
        },
        _ => None,
    }
}

/// The position of the parameter that an operand aliases.
pub fn aliased_param(m: &HashMap<u32, usize>, op: &Operand) -> (p: Option<usize>)
    ensures
        p == aliased(m@, *op),
{
    match op {
        Operand::Reg(r) => match m.get(&r.0) {
            Some(p) => Some(*p),
            None => None,
        },
        _ => None,
    }
}

// ---- a parameter that is certainly freed ----

/// The last position of `r` among the parameters.
pub open spec fn param_position(params: Seq<(RegId, Type)>, r: RegId) -> Option<usize>
    decreases params.len(),
{
    if params.len() == 0 {
        None
    } else if params.last().0 == r {
        Some((params.len() - 1) as usize)
    } else {
        param_position(params.drop_last(), r)
    }
}

/// What an instruction says of freeing: nothing, or a free of the given parameter
/// (`None` for one that is not a bare parameter).
pub open spec fn freeing(params: Seq<(RegId, Type)>, inst: Inst) -> Option<Option<usize>> {
    match inst {
        Inst::Dealloc { ptr: Operand::Reg(r), .. } => Some(param_position(params, r)),
        Inst::Dealloc { .. } => Some(None),
        Inst::Asm { .. } => Some(None),
        _ => None,
    }
}

/// The parameter that a function of one block frees by its only freeing instruction.
pub open spec fn certain_free(f: Function, k: usize) -> bool {
    f.blocks@.len() == 1 && {
        let insts = f.blocks@[0].insts@;
        exists|i: int|
            0 <= i < insts.len() && #[trigger] freeing(f.params@, insts[i]) == Some(Some(k))
                && forall|j: int|
                0 <= j < insts.len() && j != i ==> #[trigger] freeing(f.params@, insts[j]) is None
    }
}

fn position_of(params: &Vec<(RegId, Type)>, r: RegId) -> (p: Option<usize>)
    ensures
        p == param_position(params@, r),
{
    let mut k: usize = params.len();
    assert(params@.take(k as int) =~= params@);
    while k > 0
        invariant
            k <= params@.len(),
            param_position(params@, r) == param_position(params@.take(k as int), r),
        decreases k,
    {
        k -= 1;
        assert(params@.take(k + 1).drop_last() =~= params@.take(k as int));
        if params[k].0 == r {
            return Some(k);
        }
    }
    None
}

/// The parameter that a function of one block certainly frees: its only freeing
/// instruction frees a bare parameter.
pub fn derive_frees_arg(f: &Function) -> (r: Option<usize>)
    ensures
        match r {
            Some(k) => certain_free(*f, k),
            None => forall|k: usize| !certain_free(*f, k),
        },
{
    if f.blocks.len() != 1 {
        return None;
    }
    let insts = &f.blocks[0].insts;
    let mut hit: Option<(usize, Option<usize>)> = None;
    let mut i: usize = 0;
    while i < insts.len()
        invariant
            i <= insts@.len(),
            insts@ == f.blocks@[0].insts@,
            f.blocks@.len() == 1,
            match hit {
                None => forall|j: int|
                    0 <= j < i ==> #[trigger] freeing(f.params@, insts@[j]) is None,
                Some((at, what)) => {
                    &&& at < i
                    &&& freeing(f.params@, insts@[at as int]) == Some(what)
                    &&& forall|j: int|
                        0 <= j < i && j != at ==> #[trigger] freeing(f.params@, insts@[j]) is None
                },
            },
        decreases insts@.len() - i,
    {
        let what: Option<Option<usize>> = match &insts[i] {
            Inst::Dealloc { ptr, .. } => match ptr {
                Operand::Reg(r) => Some(position_of(&f.params, *r)),
                _ => Some(None),
            },
            Inst::Asm { .. } => Some(None),
            _ => None,
        };
        assert(what == freeing(f.params@, insts@[i as int]));
        if let Some(w) = what {
            if let Some((at, prior)) = hit {
                proof {
                    assert forall|k: usize| !certain_free(*f, k) by {
                        if certain_free(*f, k) {
                            let p = choose|p: int|
                                0 <= p < insts@.len() && #[trigger] freeing(f.params@, insts@[p])
                                    == Some(Some(k)) && forall|j: int|
                                    0 <= j < insts@.len() && j != p ==> #[trigger] freeing(
                                        f.params@,
                                        insts@[j],
                                    ) is None;
                            assert(freeing(f.params@, insts@[at as int]) is Some);
                            assert(freeing(f.params@, insts@[i as int]) is Some);
                        }
                    }
                }
                return None;
            }
            hit = Some((i, w));
        }
        i += 1;
    }
    proof {
        assert forall|k: usize| certain_free(*f, k) implies hit is Some && (hit->0).1 == Some(k) by {
            let p = choose|p: int|
                0 <= p < insts@.len() && #[trigger] freeing(f.params@, insts@[p]) == Some(Some(k))
                    && forall|j: int|
                    0 <= j < insts@.len() && j != p ==> #[trigger] freeing(
                        f.params@,
                        insts@[j],
                    ) is None;
        }
    }
    match hit {
        Some((at, what)) => {
            assert(freeing(f.params@, f.blocks@[0].insts@[at as int]) == Some(what));
            what
        },
        None => None,
    }
}

// ---- effects ----

/// The operand points into an allocation of the function.
pub open spec fn points_local(insts: Seq<Inst>, op: Operand) -> bool {
    match op {
        Operand::Reg(r) => is_local(insts, r.0),
        _ => false,
    }
}

/// The instruction writes to memory that a caller can see.
pub open spec fn inst_writes(insts: Seq<Inst>, inst: Inst) -> bool {
    match inst {
        Inst::Store { ptr, .. } => !points_local(insts, ptr),
        Inst::MemIntrinsic { dst, .. } => !points_local(insts, dst),
        Inst::Asm { .. } => true,
        _ => false,
    }
}

/// The instruction frees memory that a caller can see.
pub open spec fn inst_frees(insts: Seq<Inst>, inst: Inst) -> bool {
    match inst {
        Inst::Dealloc { ptr, .. } => !points_local(insts, ptr),
        Inst::Asm { .. } => true,
        _ => false,
    }
}

/// The function's own body writes to memory that a caller can see.
pub open spec fn own_writes(f: Function) -> bool {
    exists|i: int|
        0 <= i < flat(f.blocks@).len() && inst_writes(
            flat(f.blocks@),
            #[trigger] flat(f.blocks@)[i],
        )
}

/// The function's own body frees memory that a caller can see.
pub open spec fn own_frees(f: Function) -> bool {
    exists|i: int|
        0 <= i < flat(f.blocks@).len() && inst_frees(
            flat(f.blocks@),
            #[trigger] flat(f.blocks@)[i],
        )
}

fn operand_is_local(local: &HashSet<u32>, op: &Operand, Ghost(insts): Ghost<Seq<Inst>>) -> (r: bool)
    requires
        forall|x: u32| #[trigger] local@.contains(x) <==> is_local(insts, x),
    ensures
        r == points_local(insts, *op),
{
    match op {
        Operand::Reg(x) => local.contains(&x.0),
        _ => false,
    }
}

/// Whether the function's own body writes or frees memory that a caller can see.
fn own_effects(f: &Function) -> (r: (bool, bool))
    ensures
        r.0 == own_writes(*f),
        r.1 == own_frees(*f),
{
    let local = local_alloc_regs(f);
    let insts = all_insts(f);
    let ghost all = flat(f.blocks@);
    let mut writes = false;
    let mut frees = false;
    let mut i: usize = 0;
    while i < insts.len()
        invariant
            i <= insts@.len(),
            derefs(insts@) == all,
            forall|x: u32| #[trigger] local@.contains(x) <==> is_local(all, x),
            writes <==> exists|j: int| 0 <= j < i && inst_writes(all, #[trigger] all[j]),
            frees <==> exists|j: int| 0 <= j < i && inst_frees(all, #[trigger] all[j]),
        decreases insts@.len() - i,
    {
        let inst: &Inst = insts[i];
        assert(*inst == all[i as int]);
        match inst {
            Inst::Store { ptr, .. } => {
                if !operand_is_local(&local, ptr, Ghost(all)) {
                    writes = true;
                }
            },
            Inst::MemIntrinsic { dst, .. } => {
                if !operand_is_local(&local, dst, Ghost(all)) {
                    writes = true;
                }
            },
            Inst::Asm { .. } => {
                writes = true;
                frees = true;
            },
            Inst::Dealloc { ptr, .. } => {
                if !operand_is_local(&local, ptr, Ghost(all)) {
                    frees = true;
                }
            },
            _ => {},
        }
        proof {
            if inst_writes(all, all[i as int]) {
                assert(writes);
            }
            if inst_frees(all, all[i as int]) {
                assert(frees);
            }
        }
        i += 1;
    }
    (writes, frees)
}

// ---- reference counts ----

/// What an instruction adds to the count of parameter `p`'s object under `proto`.
pub open spec fn inst_count(inst: Inst, m: Map<u32, usize>, p: usize, proto: u32) -> int {
    match inst {
        Inst::Refcount { val, protocol, dec } => if aliased(m, val) == Some(p) && protocol
            == proto {
            if dec {
                -1
            } else {
                1
            }
        } else {
            0
        },
        _ => 0,
    }
}

/// What the instructions add to the count of parameter `p`'s object under `proto`.
pub open spec fn net_count(insts: Seq<Inst>, m: Map<u32, usize>, p: usize, proto: u32) -> i64
    decreases insts.len(),
{
    if insts.len() == 0 {
        0
    } else {
        wrap64(
            net_count(insts.drop_last(), m, p, proto) + inst_count(insts.last(), m, p, proto),
        )
    }
}

/// The counts that a function's own body changes.
pub open spec fn own_counts(f: Function) -> spec_fn(usize, u32) -> i64 {
    |p: usize, proto: u32| net_count(flat(f.blocks@), param_aliases(f), p, proto)
}

/// The net change to the reference count of each pointer parameter's object, per
/// protocol, over the function's own body.
pub fn refcount_effect_of_fn(f: &Function) -> (r: Vec<(usize, u32, i64)>)
    ensures
        lists_counts(r@, own_counts(*f)),
{
    let params = ptr_param_of(f);
    let insts = all_insts(f);
    let ghost all = flat(f.blocks@);
    let mut acc: Vec<(usize, u32, i64)> = Vec::new();
    let mut i: usize = 0;
    assert(all.take(0) =~= Seq::<Inst>::empty());
    while i < insts.len()
        invariant
            i <= insts@.len(),
            derefs(insts@) == all,
            params@ == param_aliases(*f),
            sorted_counts(acc@),
            forall|p: usize, q: u32| #[trigger]
                count_at(acc@, p, q) == net_count(all.take(i as int), params@, p, q),
        decreases insts@.len() - i,
    {
        let inst: &Inst = insts[i];
        assert(*inst == all[i as int]);
        assert(all.take(i + 1).drop_last() =~= all.take(i as int));
        assert(all.take(i + 1).last() == all[i as int]);
        let ghost before = acc@;
        if let Inst::Refcount { val, protocol, dec } = inst {
            if let Some(p) = aliased_param(&params, val) {
                bump(&mut acc, p, *protocol, if *dec { -1 } else { 1 });
            }
        }
        proof {
            assert forall|p: usize, q: u32| #[trigger]
                count_at(acc@, p, q) == net_count(all.take(i + 1), params@, p, q) by {
                assert(count_at(before, p, q) == net_count(all.take(i as int), params@, p, q));
            }
        }
        i += 1;
    }
    assert(all.take(all.len() as int) =~= all);
    let r = nonzero(&acc);
    proof {
        let net = own_counts(*f);
        assert forall|p: usize, q: u32| #[trigger] count_at(r@, p, q) == net(p, q) by {
            assert(count_at(r@, p, q) == count_at(acc@, p, q));
        }
    }
    r
}

// ---- provenance ----

/// The instruction moves labels from parameter `x.1` to parameter `x.0`.
pub open spec fn inst_transfers(inst: Inst, m: Map<u32, usize>, x: (usize, usize)) -> bool {
    match inst {
        Inst::ProvPropagate { dst, src } => aliased(m, dst) == Some(x.0) && aliased(m, src)
            == Some(x.1),
        _ => false,
    }
}

/// The instruction adds label `x.1` to parameter `x.0`.
pub open spec fn inst_labels(inst: Inst, m: Map<u32, usize>, x: (usize, u32)) -> bool {
    match inst {
        Inst::ProvLabel { ptr, label } => aliased(m, ptr) == Some(x.0) && label == x.1,
        _ => false,
    }
}

/// The function's own body moves labels from parameter `x.1` to parameter `x.0`.
pub open spec fn own_transfers(f: Function, x: (usize, usize)) -> bool {
    exists|i: int|
        0 <= i < flat(f.blocks@).len() && inst_transfers(
            #[trigger] flat(f.blocks@)[i],
            param_aliases(f),
            x,
        )
}

/// The function's own body adds label `x.1` to parameter `x.0`.
pub open spec fn own_labels(f: Function, x: (usize, u32)) -> bool {
    exists|i: int|
        0 <= i < flat(f.blocks@).len() && inst_labels(
            #[trigger] flat(f.blocks@)[i],
            param_aliases(f),
            x,
        )
}

/// The provenance transfers of a function's own body, sorted and without repetition.
pub fn prov_transfer_of_fn(f: &Function) -> (prov: ProvTransfer)
    ensures
        sorted_pairs(prov.transfers@),
        sorted_labels(prov.labels@),
        forall|x: (usize, usize)| #[trigger] prov.transfers@.contains(x) <==> own_transfers(*f, x),
        forall|x: (usize, u32)| #[trigger] prov.labels@.contains(x) <==> own_labels(*f, x),
{
    let params = ptr_param_of(f);
    let insts = all_insts(f);
    let ghost all = flat(f.blocks@);
    let mut transfers: Vec<(usize, usize)> = Vec::new();
    let mut labels: Vec<(usize, u32)> = Vec::new();
    let mut i: usize = 0;
    while i < insts.len()
        invariant
            i <= insts@.len(),
            derefs(insts@) == all,
            params@ == param_aliases(*f),
            sorted_pairs(transfers@),
            sorted_labels(labels@),
            forall|x: (usize, usize)| #[trigger]
                transfers@.contains(x) <==> exists|j: int|
                    0 <= j < i && inst_transfers(#[trigger] all[j], params@, x),
            forall|x: (usize, u32)| #[trigger]
                labels@.contains(x) <==> exists|j: int|
                    0 <= j < i && inst_labels(#[trigger] all[j], params@, x),
        decreases insts@.len() - i,
    {
        let inst: &Inst = insts[i];
        assert(*inst == all[i as int]);
        let ghost t0 = transfers@;
        let ghost l0 = labels@;
        match inst {
            Inst::ProvLabel { ptr, label } => {
                if let Some(a) = aliased_param(&params, ptr) {
                    insert_label(&mut labels, (a, *label));
                }
            },
            Inst::ProvPropagate { dst, src } => {
                if let Some(d) = aliased_param(&params, dst) {
                    if let Some(s) = aliased_param(&params, src) {
                        insert_pair(&mut transfers, (d, s));
                    }
                }
            },
            _ => {},
        }
        proof {
            assert forall|x: (usize, usize)| #[trigger]
                transfers@.contains(x) <==> exists|j: int|
                    0 <= j < i + 1 && inst_transfers(#[trigger] all[j], params@, x) by {
                assert(t0.contains(x) <==> exists|j: int|
                    0 <= j < i && inst_transfers(#[trigger] all[j], params@, x));
                if inst_transfers(all[i as int], params@, x) {
                    assert(transfers@.contains(x));
                }
            }
            assert forall|x: (usize, u32)| #[trigger]
                labels@.contains(x) <==> exists|j: int|
                    0 <= j < i + 1 && inst_labels(#[trigger] all[j], params@, x) by {
                assert(l0.contains(x) <==> exists|j: int|
                    0 <= j < i && inst_labels(#[trigger] all[j], params@, x));
                if inst_labels(all[i as int], params@, x) {
                    assert(labels@.contains(x));
                }
            }
        }
        i += 1;
    }
    ProvTransfer { transfers, labels }
}

/// Sort both lists and drop repetitions.
pub fn dedup(prov: &mut ProvTransfer)
    ensures
        sorted_pairs(final(prov).transfers@),
        sorted_labels(final(prov).labels@),
        forall|x: (usize, usize)| #[trigger]
            final(prov).transfers@.contains(x) <==> old(prov).transfers@.contains(x),
        forall|x: (usize, u32)| #[trigger]
            final(prov).labels@.contains(x) <==> old(prov).labels@.contains(x),
{
    let mut transfers: Vec<(usize, usize)> = Vec::new();
    let mut i: usize = 0;
    let ghost t = prov.transfers@;
    while i < prov.transfers.len()
        invariant
            i <= prov.transfers@.len(),
            *prov == *old(prov),
            t == prov.transfers@,
            sorted_pairs(transfers@),
            forall|x: (usize, usize)| #[trigger]
                transfers@.contains(x) <==> t.take(i as int).contains(x),
        decreases prov.transfers@.len() - i,
    {
        insert_pair(&mut transfers, prov.transfers[i]);
        proof {
            assert forall|x: (usize, usize)| t.take(i + 1).contains(x) <==> #[trigger] t.take(
                i as int,
            ).contains(x) || x == t[i as int] by {
                assert(t.take(i + 1) =~= t.take(i as int).push(t[i as int]));
                lemma_push_contains(t.take(i as int), t[i as int], x);
            }
        }
        i += 1;
    }
    let mut labels: Vec<(usize, u32)> = Vec::new();
    let ghost l = prov.labels@;
    let mut k: usize = 0;
    while k < prov.labels.len()
        invariant
            k <= prov.labels@.len(),
            *prov == *old(prov),
            l == prov.labels@,
            sorted_labels(labels@),
            forall|x: (usize, u32)| #[trigger]
                labels@.contains(x) <==> l.take(k as int).contains(x),
        decreases prov.labels@.len() - k,
    {
        insert_label(&mut labels, prov.labels[k]);
        proof {
            assert forall|x: (usize, u32)| l.take(k + 1).contains(x) <==> #[trigger] l.take(
                k as int,
            ).contains(x) || x == l[k as int] by {
                assert(l.take(k + 1) =~= l.take(k as int).push(l[k as int]));
                lemma_push_contains(l.take(k as int), l[k as int], x);
            }
        }
        k += 1;
    }
    proof {
        assert(t.take(t.len() as int) =~= t);
        assert(l.take(l.len() as int) =~= l);
    }
    prov.transfers = transfers;
    prov.labels = labels;
}

pub proof fn lemma_push_contains<A>(s: Seq<A>, e: A, x: A)
    ensures
        s.push(e).contains(x) <==> s.contains(x) || x == e,
{
    if s.contains(x) {
        let i = choose|i: int| 0 <= i < s.len() && s[i] == x;
        assert(s.push(e)[i] == x);
    }
    if x == e {
        assert(s.push(e)[s.len() as int] == x);
    }
    if s.push(e).contains(x) {
        let i = choose|i: int| 0 <= i < s.len() + 1 && s.push(e)[i] == x;
        if i < s.len() {
            assert(s[i] == x);
        }
    }
}

// ---- the summary of a body ----

/// `s` says what the function's own body does, before its calls are considered.
pub open spec fn own_summary(f: Function, s: Summary) -> bool {
    &&& s.ret@ == ret_summary(f)
    &&& s.writes == own_writes(f)
    &&& s.frees == own_frees(f)
    &&& (match s.frees_arg {
        Some(k) => certain_free(f, k),
        None => forall|k: usize| !certain_free(f, k),
    })
    &&& sorted_pairs(s.prov.transfers@)
    &&& sorted_labels(s.prov.labels@)
    &&& forall|x: (usize, usize)| #[trigger]
        s.prov.transfers@.contains(x) <==> own_transfers(f, x)
    &&& forall|x: (usize, u32)| #[trigger] s.prov.labels@.contains(x) <==> own_labels(f, x)
    &&& lists_counts(s.refcount_effect@, own_counts(f))
}

/// Summarize a function's own body.
pub fn summarize_fn(f: &Function) -> (s: Summary)
    ensures
        own_summary(*f, s),
{
    let (writes, frees) = own_effects(f);
    Summary {
        ret: ret_of_fn(f),
        writes,
        frees,
        frees_arg: derive_frees_arg(f),
        prov: prov_transfer_of_fn(f),
        refcount_effect: refcount_effect_of_fn(f),
    }
}

} // verus!
