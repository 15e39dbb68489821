//! The control flow of a function, and what is known at its loop headers.

use crate::ir::{block_with, defined, BasicBlock, BlockId, Function, Inst, Operand, RegId, Type};
use crate::sorted::{ascending, increasing, insert, lemma_ascending, numbers};
use vstd::prelude::*;

verus! {

/// A loop: its header and the blocks of its body, the header among them.
#[derive(Debug)]
pub struct LoopInfo {
    pub header: u32,
    pub body: Vec<u32>,
}

/// A counter of a loop that ends where the counter equals a bound.
#[derive(Debug)]
pub struct EqExit {
    pub reg: u32,
    pub bound: Operand,
    pub stride: i128,
}

/// A pointer that walks a region up to an end pointer.
#[derive(Debug)]
pub struct PtrWalk {
    pub reg: u32,
    pub end: Operand,
    pub elem: Type,
    pub stride_elems: i128,
    /// Whether the end is tested after the access.
    pub bottom_test: bool,
}

/// The least and the greatest value of a register, where there are some.
#[derive(Debug, Clone, Copy, PartialEq, Eq, Structural)]
pub struct Interval {
    pub reg: u32,
    pub lower: Option<i128>,
    pub upper: Option<i128>,
}

/// What holds at a loop header on every iteration.
#[derive(Debug)]
pub struct HeaderFacts {
    pub header: u32,
    pub preds: Vec<u32>,
    pub intervals: Vec<Interval>,
    /// Differences: the first register less the second is at most the number.
    pub diffs: Vec<(u32, u32, i128)>,
    pub exits: Vec<EqExit>,
    pub walks: Vec<PtrWalk>,
}

/// The blocks that dominate a block.
#[derive(Debug)]
pub struct Dominated {
    pub block: u32,
    pub by: Vec<u32>,
}

/// The control flow of a function.
#[derive(Debug)]
pub struct Flow {
    /// The blocks in an order in which each stands after its predecessors, but for
    /// those of back edges.
    pub order: Vec<u32>,
    pub dominators: Vec<Dominated>,
    pub loops: Vec<LoopInfo>,
    pub headers: Vec<HeaderFacts>,
}

/// The last loop with a header.
pub open spec fn loop_at(loops: Seq<LoopInfo>, header: u32) -> Option<LoopInfo>
    decreases loops.len(),
{
    if loops.len() == 0 {
        None
    } else if loops.last().header == header {
        Some(loops.last())
    } else {
        loop_at(loops.drop_last(), header)
    }
}

/// The last facts of a header.
pub open spec fn facts_at(hs: Seq<HeaderFacts>, header: u32) -> Option<HeaderFacts>
    decreases hs.len(),
{
    if hs.len() == 0 {
        None
    } else if hs.last().header == header {
        Some(hs.last())
    } else {
        facts_at(hs.drop_last(), header)
    }
}

/// The block is one of those that dominate another.
pub open spec fn dominates(ds: Seq<Dominated>, a: u32, b: u32) -> bool {
    exists|i: int| 0 <= i < ds.len() && (#[trigger] ds[i]).block == b && ds[i].by@.contains(a)
}

/// The edge goes back to a loop header that dominates its source.
pub open spec fn back_edge(flow: Flow, source: u32, target: u32) -> bool {
    loop_at(flow.loops@, target) is Some && dominates(flow.dominators@, target, source)
}

/// The interval of a register.
pub open spec fn interval_of(s: Seq<Interval>, reg: u32) -> Option<Interval>
    decreases s.len(),
{
    if s.len() == 0 {
        None
    } else if s.last().reg == reg {
        Some(s.last())
    } else {
        interval_of(s.drop_last(), reg)
    }
}

impl Flow {
    /// The last loop with a header.
    pub fn loop_of(&self, header: u32) -> (r: Option<&LoopInfo>)
        ensures
            match r {
                Some(l) => loop_at(self.loops@, header) == Some(*l),
                None => loop_at(self.loops@, header) is None,
            },
    {
        let mut k: usize = self.loops.len();
        assert(self.loops@.take(k as int) =~= self.loops@);
        while k > 0
            invariant
                k <= self.loops@.len(),
                loop_at(self.loops@, header) == loop_at(self.loops@.take(k as int), header),
            decreases k,
        {
            k -= 1;
            assert(self.loops@.take(k + 1).drop_last() =~= self.loops@.take(k as int));
            if self.loops[k].header == header {
                return Some(&self.loops[k]);
            }
        }
        None
    }

    /// The last facts of a header.
    pub fn facts_of(&self, header: u32) -> (r: Option<&HeaderFacts>)
        ensures
            match r {
                Some(h) => facts_at(self.headers@, header) == Some(*h),
                None => facts_at(self.headers@, header) is None,
            },
    {
        let mut k: usize = self.headers.len();
        assert(self.headers@.take(k as int) =~= self.headers@);
        while k > 0
            invariant
                k <= self.headers@.len(),
                facts_at(self.headers@, header) == facts_at(self.headers@.take(k as int), header),
            decreases k,
        {
            k -= 1;
            assert(self.headers@.take(k + 1).drop_last() =~= self.headers@.take(k as int));
            if self.headers[k].header == header {
                return Some(&self.headers[k]);
            }
        }
        None
    }

    fn is_dominated(&self, a: u32, b: u32) -> (r: bool)
        ensures
            r == dominates(self.dominators@, a, b),
    {
        let mut i: usize = 0;
        while i < self.dominators.len()
            invariant
                i <= self.dominators@.len(),
                forall|k: int|
                    0 <= k < i ==> !((#[trigger] self.dominators@[k]).block == b
                        && self.dominators@[k].by@.contains(a)),
            decreases self.dominators@.len() - i,
        {
            if self.dominators[i].block == b && holds(&self.dominators[i].by, a) {
                return true;
            }
            i += 1;
        }
        false
    }

    /// Whether an edge goes back to a loop header that dominates its source.
    pub fn is_back_edge(&self, source: u32, target: u32) -> (r: bool)
        ensures
            r == back_edge(*self, source, target),
    {
        self.loop_of(target).is_some() && self.is_dominated(target, source)
    }
}

impl HeaderFacts {
    /// The interval of a register.
    pub fn interval(&self, reg: u32) -> (r: Option<Interval>)
        ensures
            r == interval_of(self.intervals@, reg),
    {
        let mut k: usize = self.intervals.len();
        assert(self.intervals@.take(k as int) =~= self.intervals@);
        while k > 0
            invariant
                k <= self.intervals@.len(),
                interval_of(self.intervals@, reg) == interval_of(
                    self.intervals@.take(k as int),
                    reg,
                ),
            decreases k,
        {
            k -= 1;
            assert(self.intervals@.take(k + 1).drop_last() =~= self.intervals@.take(k as int));
            if self.intervals[k].reg == reg {
                return Some(self.intervals[k]);
            }
        }
        None
    }
}

/// Whether a list holds a number.
pub fn holds(s: &Vec<u32>, x: u32) -> (r: bool)
    ensures
        r == s@.contains(x),
{
    let mut i: usize = 0;
    while i < s.len()
        invariant
            i <= s@.len(),
            forall|k: int| 0 <= k < i ==> s@[k] != x,
        decreases s@.len() - i,
    {
        if s[i] == x {
            assert(s@[i as int] == x);
            return true;
        }
        i += 1;
    }
    false
}

// ---- loop bodies ----

/// A block defines a register, as a parameter or by an instruction.
pub open spec fn block_defines(b: BasicBlock, r: u32) -> bool {
    ||| exists|i: int| 0 <= i < b.params@.len() && ((#[trigger] b.params@[i]).0).0 == r
    ||| exists|i: int| 0 <= i < b.insts@.len() && defined(#[trigger] b.insts@[i]) == Some(RegId(r))
}

/// A block of a function defines a register.
pub open spec fn defined_in(f: Function, block: u32, r: u32) -> bool {
    match block_with(f.blocks@, BlockId(block)) {
        Some(b) => block_defines(b, r),
        None => false,
    }
}

/// Some block of a body defines a register.
pub open spec fn modified_in(f: Function, body: Seq<u32>, r: u32) -> bool {
    exists|i: int| 0 <= i < body.len() && defined_in(f, #[trigger] body[i], r)
}

/// The registers that a body defines, in ascending order.
pub open spec fn modified_regs(f: Function, body: Seq<u32>) -> Seq<int> {
    ascending(|r: int| modified_in(f, body, r as u32), 0x1_0000_0000)
}

/// A block of a function frees memory.
pub open spec fn frees_in(f: Function, block: u32) -> bool {
    match block_with(f.blocks@, BlockId(block)) {
        Some(b) => exists|i: int| 0 <= i < b.insts@.len() && (#[trigger] b.insts@[i]) is Dealloc,
        None => false,
    }
}

/// Some block of a body frees memory.
pub open spec fn body_frees(f: Function, body: Seq<u32>) -> bool {
    exists|i: int| 0 <= i < body.len() && frees_in(f, #[trigger] body[i])
}

/// The register that an instruction defines.
pub fn defined_reg(inst: &Inst) -> (r: Option<RegId>)
    ensures
        r == defined(*inst),
{
    match inst {
        Inst::Assign { dst, .. } => Some(*dst),
        Inst::Load { dst, .. } => Some(*dst),
        Inst::Alloc { dst, .. } => Some(*dst),
        Inst::PtrOffset { dst, .. } => Some(*dst),
        Inst::FieldPtr { dst, .. } => Some(*dst),
        Inst::Call { dst, .. } => *dst,
        Inst::RefWitness { dst, .. } => Some(*dst),
        Inst::Asm { dst } => *dst,
        Inst::Intrinsic { dst, .. } => *dst,
        _ => None,
    }
}

fn add_modified(b: &BasicBlock, v: &mut Vec<usize>)
    requires
        increasing(numbers(old(v)@)),
    ensures
        increasing(numbers(final(v)@)),
        forall|y: usize| #[trigger]
            final(v)@.contains(y) <==> old(v)@.contains(y) || (y <= u32::MAX && block_defines(
                *b,
                y as u32,
            )),
{
    let mut i: usize = 0;
    while i < b.params.len()
        invariant
            i <= b.params@.len(),
            increasing(numbers(v@)),
            forall|y: usize| #[trigger]
                v@.contains(y) <==> old(v)@.contains(y) || exists|k: int|
                    0 <= k < i && ((#[trigger] b.params@[k]).0).0 as usize == y,
        decreases b.params@.len() - i,
    {
        let ghost before = v@;
        let r: usize = (b.params[i].0).0 as usize;
        insert(v, r);
        proof {
            assert forall|y: usize| #[trigger] v@.contains(y) <==> old(v)@.contains(y)
                || exists|k: int|
                0 <= k < i + 1 && ((#[trigger] b.params@[k]).0).0 as usize == y by {
                if before.contains(y) && !old(v)@.contains(y) {
                    let k = choose|k: int|
                        0 <= k < i && ((#[trigger] b.params@[k]).0).0 as usize == y;
                    assert((b.params@[k].0).0 as usize == y);
                }
                if y == r {
                    assert((b.params@[i as int].0).0 as usize == y);
                }
            }
        }
        i += 1;
    }
    let ghost middle = v@;
    let mut k: usize = 0;
    while k < b.insts.len()
        invariant
            k <= b.insts@.len(),
            increasing(numbers(v@)),
            forall|y: usize| #[trigger]
                v@.contains(y) <==> middle.contains(y) || exists|j: int|
                    0 <= j < k && inst_is(#[trigger] b.insts@[j], y),
        decreases b.insts@.len() - k,
    {
        let ghost before = v@;
        if let Some(r) = defined_reg(&b.insts[k]) {
            insert(v, r.0 as usize);
        }
        proof {
            assert forall|y: usize| #[trigger] v@.contains(y) <==> middle.contains(y)
                || exists|j: int| 0 <= j < k + 1 && inst_is(#[trigger] b.insts@[j], y) by {
                if before.contains(y) && !middle.contains(y) {
                    let j = choose|j: int| 0 <= j < k && inst_is(#[trigger] b.insts@[j], y);
                    assert(inst_is(b.insts@[j], y));
                }
                if inst_is(b.insts@[k as int], y) {
                    assert(v@.contains(y));
                }
                if v@.contains(y) && !before.contains(y) {
                    assert(inst_is(b.insts@[k as int], y));
                }
            }
        }
        k += 1;
    }
    proof {
        assert forall|y: usize| #[trigger] v@.contains(y) <==> old(v)@.contains(y) || (y
            <= u32::MAX && block_defines(*b, y as u32)) by {
            if middle.contains(y) && !old(v)@.contains(y) {
                let j = choose|j: int|
                    0 <= j < b.params@.len() && ((#[trigger] b.params@[j]).0).0 as usize == y;
                assert((b.params@[j].0).0 == y as u32);
            }
            if v@.contains(y) && !middle.contains(y) {
                let j = choose|j: int|
                    0 <= j < b.insts@.len() && inst_is(#[trigger] b.insts@[j], y);
                assert(defined(b.insts@[j]) == Some(RegId(y as u32)));
            }
            if y <= u32::MAX && block_defines(*b, y as u32) {
                if exists|i: int|
                    0 <= i < b.params@.len() && ((#[trigger] b.params@[i]).0).0 == y as u32 {
                    let j = choose|i: int|
                        0 <= i < b.params@.len() && ((#[trigger] b.params@[i]).0).0 == y as u32;
                    assert((b.params@[j].0).0 as usize == y);
                } else {
                    let j = choose|i: int|
                        0 <= i < b.insts@.len() && defined(#[trigger] b.insts@[i]) == Some(
                            RegId(y as u32),
                        );
                    assert(inst_is(b.insts@[j], y));
                }
            }
        }
    }
}

/// The instruction defines the register of a number.
spec fn inst_is(inst: Inst, y: usize) -> bool {
    defined(inst) is Some && (defined(inst)->0).0 as usize == y
}

/// The registers that a body defines, in ascending order.
pub fn loop_modified(f: &Function, body: &Vec<u32>) -> (v: Vec<usize>)
    ensures
        numbers(v@) == modified_regs(*f, body@),
        forall|i: int| 0 <= i < v@.len() ==> #[trigger] v@[i] <= u32::MAX,
{
    let mut v: Vec<usize> = Vec::new();
    let mut i: usize = 0;
    while i < body.len()
        invariant
            i <= body@.len(),
            increasing(numbers(v@)),
            forall|y: usize| #[trigger]
                v@.contains(y) <==> y <= u32::MAX && modified_in(
                    *f,
                    body@.take(i as int),
                    y as u32,
                ),
        decreases body@.len() - i,
    {
        let ghost before = v@;
        let ghost next = body@.take(i + 1);
        if let Some(b) = f.block(BlockId(body[i])) {
            add_modified(b, &mut v);
        }
        proof {
            assert forall|y: usize| #[trigger]
                v@.contains(y) <==> y <= u32::MAX && modified_in(*f, next, y as u32) by {
                if y <= u32::MAX {
                    if before.contains(y) {
                        let k = choose|k: int|
                            0 <= k < i && defined_in(
                                *f,
                                #[trigger] body@.take(i as int)[k],
                                y as u32,
                            );
                        assert(defined_in(*f, next[k], y as u32));
                    }
                    if defined_in(*f, body@[i as int], y as u32) {
                        assert(defined_in(*f, next[i as int], y as u32));
                    }
                    if modified_in(*f, next, y as u32) {
                        let k = choose|k: int|
                            0 <= k < next.len() && defined_in(*f, #[trigger] next[k], y as u32);
                        if k < i {
                            assert(defined_in(*f, body@.take(i as int)[k], y as u32));
                            assert(before.contains(y));
                        }
                    }
                }
            }
        }
        i += 1;
    }
    proof {
        assert(body@.take(body@.len() as int) =~= body@);
        let s = numbers(v@);
        let p = |r: int| modified_in(*f, body@, r as u32);
        assert forall|x: int| #[trigger] s.contains(x) <==> 0 <= x < 0x1_0000_0000 && p(x) by {
            if s.contains(x) {
                let j = choose|j: int| 0 <= j < s.len() && s[j] == x;
                assert(v@.contains(v@[j]));
            }
            if 0 <= x < 0x1_0000_0000 && p(x) {
                assert(v@.contains(x as usize));
                let j = choose|j: int| 0 <= j < v@.len() && v@[j] == x as usize;
                assert(s[j] == x);
            }
        }
        lemma_ascending(p, 0x1_0000_0000, s);
        assert forall|i: int| 0 <= i < v@.len() implies #[trigger] v@[i] <= u32::MAX by {
            assert(v@.contains(v@[i]));
        }
    }
    v
}

/// Whether a body frees memory.
pub fn loop_frees(f: &Function, body: &Vec<u32>) -> (r: bool)
    ensures
        r == body_frees(*f, body@),
{
    let mut i: usize = 0;
    while i < body.len()
        invariant
            i <= body@.len(),
            forall|k: int| 0 <= k < i ==> !frees_in(*f, #[trigger] body@[k]),
        decreases body@.len() - i,
    {
        if let Some(b) = f.block(BlockId(body[i])) {
            let mut k: usize = 0;
            while k < b.insts.len()
                invariant
                    i < body@.len(),
                    k <= b.insts@.len(),
                    block_with(f.blocks@, BlockId(body@[i as int])) == Some(*b),
                    forall|j: int| 0 <= j < k ==> !((#[trigger] b.insts@[j]) is Dealloc),
                decreases b.insts@.len() - k,
            {
                if let Inst::Dealloc { .. } = &b.insts[k] {
                    assert(b.insts@[k as int] is Dealloc);
                    assert(frees_in(*f, body@[i as int]));
                    return true;
                }
                k += 1;
            }
        }
        i += 1;
    }
    false
}

} // verus!
