//! Symbolic values, regions and path states.

use crate::expr::{same, Ex};
use crate::ir::{Assumption, RegionKind, Type};
use crate::numbers::{lemma_numbered_push, numbered};
use vstd::prelude::*;

verus! {

/// The width of a pointer.
pub const PTR_WIDTH: u32 = 64;

/// The name of an assumption.
pub open spec fn assumption_name(a: Assumption) -> &'static str {
    match a {
        Assumption::AllocSucceeds => "alloc-succeeds",
        Assumption::DebugInfo => "debuginfo",
        Assumption::GlobalMemory => "global-memory",
        Assumption::LinearNoOverflow => "linear-no-overflow",
        Assumption::ParamContracts => "param-contracts",
        Assumption::SliceAbi => "slice-abi",
        Assumption::StructAbi => "struct-abi",
        Assumption::ValidReference => "valid-reference",
    }
}

impl Assumption {
    /// The name of the assumption.
    pub fn name(self) -> (s: &'static str)
        ensures
            s == assumption_name(self),
    {
        match self {
            Assumption::AllocSucceeds => "alloc-succeeds",
            Assumption::DebugInfo => "debuginfo",
            Assumption::GlobalMemory => "global-memory",
            Assumption::LinearNoOverflow => "linear-no-overflow",
            Assumption::ParamContracts => "param-contracts",
            Assumption::SliceAbi => "slice-abi",
            Assumption::StructAbi => "struct-abi",
            Assumption::ValidReference => "valid-reference",
        }
    }
}

/// How a number that is used as a pointer was computed.
#[derive(Debug, Clone, Copy, PartialEq, Eq, Structural)]
pub enum ScalarPtrCause {
    /// A pointer was cast to an integer.
    PtrToInt,
    /// Arithmetic with a pointer operand.
    PtrArith,
    /// A copy or reinterpretation of a pointer.
    PtrCopy,
    /// Bit manipulation.
    BitMask,
    /// Arithmetic without a pointer operand.
    IntArith,
    /// A load of a type that is no pointer.
    LoadedScalar,
    /// A call result of a type that is no pointer.
    CallResult,
    /// A block parameter.
    BlockParam,
    /// A pointer instruction.
    PtrResult,
    /// Copies of a pointer.
    PtrRoot,
    /// Copies of a parameter that is no pointer.
    ScalarParam,
    /// Copies of an undefined value.
    ConstUndef,
    /// Copies of a symbol's address.
    ConstSymbol,
    /// Copies of an integer constant.
    ConstInt,
    /// Copies of the null pointer.
    ConstNull,
    /// A copy that is not resolved yet.
    Copy,
    /// Anything else.
    Other,
}

/// Why a pointer that was computed as a number is not tracked.
pub open spec fn cause_text(c: ScalarPtrCause) -> &'static str {
    match c {
        ScalarPtrCause::PtrToInt =>
            "pointer provenance is not tracked: scalar-as-pointer (ptr-to-int cast; recoverable)",
        ScalarPtrCause::PtrArith =>
            "pointer provenance is not tracked: scalar-as-pointer (pointer arithmetic; recoverable)",
        ScalarPtrCause::PtrCopy =>
            "pointer provenance is not tracked: scalar-as-pointer (pointer copy/reinterpret; recoverable)",
        ScalarPtrCause::BitMask =>
            "pointer provenance is not tracked: scalar-as-pointer (bit-mask of an address; ambiguous)",
        ScalarPtrCause::IntArith =>
            "pointer provenance is not tracked: scalar-as-pointer (integer arithmetic; ambiguous)",
        ScalarPtrCause::LoadedScalar =>
            "pointer provenance is not tracked: scalar-as-pointer (loaded scalar; store-load dependent)",
        ScalarPtrCause::CallResult =>
            "pointer provenance is not tracked: scalar-as-pointer (call/index result typed non-pointer; recoverable)",
        ScalarPtrCause::BlockParam =>
            "pointer provenance is not tracked: scalar-as-pointer (block param / PHI; loop-carried)",
        ScalarPtrCause::PtrResult =>
            "pointer provenance is not tracked: scalar-as-pointer (ptroffset/field/alloc leak)",
        ScalarPtrCause::PtrRoot =>
            "pointer provenance is not tracked: scalar-as-pointer (copy rooted in a pointer value; recoverable)",
        ScalarPtrCause::ScalarParam =>
            "pointer provenance is not tracked: scalar-as-pointer (copy rooted in a scalar parameter; opaque)",
        ScalarPtrCause::ConstUndef =>
            "pointer provenance is not tracked: scalar-as-pointer (rooted in undef; FRONTEND lowering gap)",
        ScalarPtrCause::ConstSymbol =>
            "pointer provenance is not tracked: scalar-as-pointer (rooted in a symbol address; recoverable)",
        ScalarPtrCause::ConstInt =>
            "pointer provenance is not tracked: scalar-as-pointer (rooted in an integer constant; ambiguous)",
        ScalarPtrCause::ConstNull =>
            "pointer provenance is not tracked: scalar-as-pointer (rooted in null)",
        ScalarPtrCause::Copy =>
            "pointer provenance is not tracked: scalar-as-pointer (unresolved copy)",
        ScalarPtrCause::Other =>
            "pointer provenance is not tracked: scalar-as-pointer (copy root unclassified: intrinsic/asm/deep)",
    }
}

impl ScalarPtrCause {
    /// Why a pointer that was computed as a number is not tracked.
    pub fn residual(self) -> (s: &'static str)
        ensures
            s == cause_text(self),
    {
        match self {
            ScalarPtrCause::PtrToInt =>
                "pointer provenance is not tracked: scalar-as-pointer (ptr-to-int cast; recoverable)",
            ScalarPtrCause::PtrArith =>
                "pointer provenance is not tracked: scalar-as-pointer (pointer arithmetic; recoverable)",
            ScalarPtrCause::PtrCopy =>
                "pointer provenance is not tracked: scalar-as-pointer (pointer copy/reinterpret; recoverable)",
            ScalarPtrCause::BitMask =>
                "pointer provenance is not tracked: scalar-as-pointer (bit-mask of an address; ambiguous)",
            ScalarPtrCause::IntArith =>
                "pointer provenance is not tracked: scalar-as-pointer (integer arithmetic; ambiguous)",
            ScalarPtrCause::LoadedScalar =>
                "pointer provenance is not tracked: scalar-as-pointer (loaded scalar; store-load dependent)",
            ScalarPtrCause::CallResult =>
                "pointer provenance is not tracked: scalar-as-pointer (call/index result typed non-pointer; recoverable)",
            ScalarPtrCause::BlockParam =>
                "pointer provenance is not tracked: scalar-as-pointer (block param / PHI; loop-carried)",
            ScalarPtrCause::PtrResult =>
                "pointer provenance is not tracked: scalar-as-pointer (ptroffset/field/alloc leak)",
            ScalarPtrCause::PtrRoot =>
                "pointer provenance is not tracked: scalar-as-pointer (copy rooted in a pointer value; recoverable)",
            ScalarPtrCause::ScalarParam =>
                "pointer provenance is not tracked: scalar-as-pointer (copy rooted in a scalar parameter; opaque)",
            ScalarPtrCause::ConstUndef =>
                "pointer provenance is not tracked: scalar-as-pointer (rooted in undef; FRONTEND lowering gap)",
            ScalarPtrCause::ConstSymbol =>
                "pointer provenance is not tracked: scalar-as-pointer (rooted in a symbol address; recoverable)",
            ScalarPtrCause::ConstInt =>
                "pointer provenance is not tracked: scalar-as-pointer (rooted in an integer constant; ambiguous)",
            ScalarPtrCause::ConstNull =>
                "pointer provenance is not tracked: scalar-as-pointer (rooted in null)",
            ScalarPtrCause::Copy =>
                "pointer provenance is not tracked: scalar-as-pointer (unresolved copy)",
            ScalarPtrCause::Other =>
                "pointer provenance is not tracked: scalar-as-pointer (copy root unclassified: intrinsic/asm/deep)",
        }
    }
}

/// Why a pointer has no tracked provenance.
#[derive(Debug, Clone, Copy, PartialEq, Eq, Structural)]
pub enum POrigin {
    Param,
    Call,
    Load,
    IntToPtr,
    Loop,
    SelectJoin,
    RegionDrop,
    PhiFallback,
    ScalarAsPtr(ScalarPtrCause),
}

/// Why a pointer has no tracked provenance, in words.
pub open spec fn origin_text(o: POrigin) -> &'static str {
    match o {
        POrigin::Param => "pointer provenance is not tracked: uncontracted pointer parameter",
        POrigin::Call =>
            "pointer provenance is not tracked: opaque call result (no return summary)",
        POrigin::Load =>
            "pointer provenance is not tracked: loaded value (no store-load provenance)",
        POrigin::IntToPtr => "pointer provenance is not tracked: int-to-pointer cast",
        POrigin::Loop => "pointer provenance is not tracked: loop-havocked pointer",
        POrigin::SelectJoin =>
            "pointer provenance is not tracked: select/PHI join of differing provenance",
        POrigin::RegionDrop =>
            "pointer provenance is not tracked: region dropped at path merge",
        POrigin::PhiFallback =>
            "pointer provenance is not tracked: PHI fallback (no incoming arg)",
        POrigin::ScalarAsPtr(c) => cause_text(c),
    }
}

impl POrigin {
    /// Why a pointer has no tracked provenance, in words.
    pub fn residual(self) -> (s: &'static str)
        ensures
            s == origin_text(self),
    {
        match self {
            POrigin::Param => "pointer provenance is not tracked: uncontracted pointer parameter",
            POrigin::Call =>
                "pointer provenance is not tracked: opaque call result (no return summary)",
            POrigin::Load =>
                "pointer provenance is not tracked: loaded value (no store-load provenance)",
            POrigin::IntToPtr => "pointer provenance is not tracked: int-to-pointer cast",
            POrigin::Loop => "pointer provenance is not tracked: loop-havocked pointer",
            POrigin::SelectJoin =>
                "pointer provenance is not tracked: select/PHI join of differing provenance",
            POrigin::RegionDrop =>
                "pointer provenance is not tracked: region dropped at path merge",
            POrigin::PhiFallback =>
                "pointer provenance is not tracked: PHI fallback (no incoming arg)",
            POrigin::ScalarAsPtr(c) => c.residual(),
        }
    }
}

/// What a pointer points into.
#[derive(Debug)]
pub enum Prov {
    Null,
    /// The region at a position.
    Region(usize),
    /// One of two pointers, by a condition.
    Select { cond: Ex, then_ptr: Box<SymPointer>, else_ptr: Box<SymPointer> },
    /// Not tracked.
    Unknown(POrigin),
}

/// A symbolic pointer.
#[derive(Debug)]
pub struct SymPointer {
    pub prov: Prov,
    pub offset: Ex,
    pub align: u64,
}

/// A symbolic value.
#[derive(Debug)]
pub enum SymValue {
    Scalar(Ex),
    Ptr(SymPointer),
}

/// A region of memory on a path.
#[derive(Debug)]
pub struct SymRegion {
    pub kind: RegionKind,
    /// The size in bytes.
    pub size: Ex,
    /// Whether it is certainly not freed.
    pub live: bool,
    pub readable: bool,
    pub writable: bool,
    /// What its validity rests on, where it is not allocated on the path.
    pub contract: Option<Assumption>,
    /// Why its size does not wrap, where it does not.
    pub size_nowrap: Option<Ex>,
    /// The width of an element of which a zero one lies before the end.
    pub sentinel: Option<u64>,
    /// Whether it holds untrusted user data.
    pub user_controlled: bool,
}

/// A store: the bytes at the target hold the value.
#[derive(Debug)]
pub struct StoreRecord {
    pub target: SymPointer,
    pub value: SymValue,
    pub size: u64,
}

/// What is known on a path.
pub struct PathState {
    /// The values of registers.
    pub env: Vec<(u32, SymValue)>,
    pub regions: Vec<SymRegion>,
    /// The branch conditions taken.
    pub pathcond: Vec<Ex>,
    /// Assumed facts.
    pub facts: Vec<Ex>,
    /// The stores, in program order.
    pub heap: Vec<StoreRecord>,
    /// Whether nothing was approximated.
    pub exact: bool,
}

/// What is known on a path, as a mathematical value.
#[verifier::ext_equal]
pub struct PathView {
    pub env: Map<u32, SymValue>,
    pub regions: Seq<SymRegion>,
    pub pathcond: Seq<Ex>,
    pub facts: Seq<Ex>,
    pub heap: Seq<StoreRecord>,
    pub exact: bool,
}

impl View for PathState {
    type V = PathView;

    open spec fn view(&self) -> PathView {
        PathView {
            env: numbered(self.env@),
            regions: self.regions@,
            pathcond: self.pathcond@,
            facts: self.facts@,
            heap: self.heap@,
            exact: self.exact,
        }
    }
}

// ---- copies ----

impl SymPointer {
    /// A copy of the pointer.
    pub fn copy(&self) -> (p: SymPointer)
        ensures
            p == *self,
        decreases self,
    {
        let prov = match &self.prov {
            Prov::Null => Prov::Null,
            Prov::Region(r) => Prov::Region(*r),
            Prov::Select { cond, then_ptr, else_ptr } => Prov::Select {
                cond: cond.clone(),
                then_ptr: Box::new(then_ptr.copy()),
                else_ptr: Box::new(else_ptr.copy()),
            },
            Prov::Unknown(o) => Prov::Unknown(*o),
        };
        SymPointer { prov, offset: self.offset.clone(), align: self.align }
    }
}

impl Prov {
    /// A copy of the provenance.
    pub fn copy(&self) -> (p: Prov)
        ensures
            p == *self,
    {
        match self {
            Prov::Null => Prov::Null,
            Prov::Region(r) => Prov::Region(*r),
            Prov::Select { cond, then_ptr, else_ptr } => Prov::Select {
                cond: cond.clone(),
                then_ptr: Box::new(then_ptr.copy()),
                else_ptr: Box::new(else_ptr.copy()),
            },
            Prov::Unknown(o) => Prov::Unknown(*o),
        }
    }
}

impl SymValue {
    /// A copy of the value.
    pub fn copy(&self) -> (v: SymValue)
        ensures
            v == *self,
    {
        match self {
            SymValue::Scalar(e) => SymValue::Scalar(e.clone()),
            SymValue::Ptr(p) => SymValue::Ptr(p.copy()),
        }
    }
}

/// A copy of an optional expression.
pub fn copy_opt(e: &Option<Ex>) -> (r: Option<Ex>)
    ensures
        r == *e,
{
    match e {
        Some(x) => Some(x.clone()),
        None => None,
    }
}

impl SymRegion {
    /// A copy of the region.
    pub fn copy(&self) -> (r: SymRegion)
        ensures
            r == *self,
    {
        SymRegion {
            kind: self.kind,
            size: self.size.clone(),
            live: self.live,
            readable: self.readable,
            writable: self.writable,
            contract: self.contract,
            size_nowrap: copy_opt(&self.size_nowrap),
            sentinel: self.sentinel,
            user_controlled: self.user_controlled,
        }
    }
}

impl StoreRecord {
    /// A copy of the record.
    pub fn copy(&self) -> (r: StoreRecord)
        ensures
            r == *self,
    {
        StoreRecord { target: self.target.copy(), value: self.value.copy(), size: self.size }
    }
}

/// A copy of expressions.
pub fn copy_exprs(s: &Vec<Ex>) -> (r: Vec<Ex>)
    ensures
        r@ == s@,
{
    let mut out: Vec<Ex> = Vec::new();
    let mut i: usize = 0;
    while i < s.len()
        invariant
            i <= s@.len(),
            out@ == s@.take(i as int),
        decreases s@.len() - i,
    {
        out.push(s[i].clone());
        assert(out@ =~= s@.take(i + 1));
        i += 1;
    }
    assert(s@.take(s@.len() as int) =~= s@);
    out
}

/// A copy of regions.
pub fn copy_regions(s: &Vec<SymRegion>) -> (r: Vec<SymRegion>)
    ensures
        r@ == s@,
{
    let mut out: Vec<SymRegion> = Vec::new();
    let mut i: usize = 0;
    while i < s.len()
        invariant
            i <= s@.len(),
            out@ == s@.take(i as int),
        decreases s@.len() - i,
    {
        out.push(s[i].copy());
        assert(out@ =~= s@.take(i + 1));
        i += 1;
    }
    assert(s@.take(s@.len() as int) =~= s@);
    out
}

/// A copy of stores.
pub fn copy_heap(s: &Vec<StoreRecord>) -> (r: Vec<StoreRecord>)
    ensures
        r@ == s@,
{
    let mut out: Vec<StoreRecord> = Vec::new();
    let mut i: usize = 0;
    while i < s.len()
        invariant
            i <= s@.len(),
            out@ == s@.take(i as int),
        decreases s@.len() - i,
    {
        out.push(s[i].copy());
        assert(out@ =~= s@.take(i + 1));
        i += 1;
    }
    assert(s@.take(s@.len() as int) =~= s@);
    out
}

/// A copy of the values of registers.
pub fn copy_env(s: &Vec<(u32, SymValue)>) -> (r: Vec<(u32, SymValue)>)
    ensures
        r@ == s@,
{
    let mut out: Vec<(u32, SymValue)> = Vec::new();
    let mut i: usize = 0;
    while i < s.len()
        invariant
            i <= s@.len(),
            out@ == s@.take(i as int),
        decreases s@.len() - i,
    {
        out.push((s[i].0, s[i].1.copy()));
        assert(out@ =~= s@.take(i + 1));
        i += 1;
    }
    assert(s@.take(s@.len() as int) =~= s@);
    out
}

/// The state with a register bound.
pub open spec fn bound(s: PathView, r: u32, v: SymValue) -> PathView {
    PathView { env: s.env.insert(r, v), ..s }
}

/// The state with a fact added.
pub open spec fn with_fact(s: PathView, e: Ex) -> PathView {
    PathView { facts: s.facts.push(e), ..s }
}

/// The state with a branch condition added.
pub open spec fn with_cond(s: PathView, e: Ex) -> PathView {
    PathView { pathcond: s.pathcond.push(e), ..s }
}

/// The state with a region added.
pub open spec fn with_region(s: PathView, r: SymRegion) -> PathView {
    PathView { regions: s.regions.push(r), ..s }
}

/// The premises of a path: its conditions, then its facts.
pub open spec fn premises(s: PathView) -> Seq<Ex> {
    s.pathcond + s.facts
}

impl PathState {
    /// A copy of the state.
    pub fn copy(&self) -> (s: PathState)
        ensures
            s@ == self@,
            s.env@ == self.env@,
    {
        PathState {
            env: copy_env(&self.env),
            regions: copy_regions(&self.regions),
            pathcond: copy_exprs(&self.pathcond),
            facts: copy_exprs(&self.facts),
            heap: copy_heap(&self.heap),
            exact: self.exact,
        }
    }

    /// Bind a register.
    pub fn bind(&mut self, r: u32, v: SymValue)
        ensures
            final(self)@ == bound(old(self)@, r, v),
    {
        proof {
            lemma_numbered_push(self.env@, (r, v));
        }
        self.env.push((r, v));
    }

    /// Add a fact.
    pub fn add_fact(&mut self, e: Ex)
        ensures
            final(self)@ == with_fact(old(self)@, e),
    {
        self.facts.push(e);
    }

    /// Add a branch condition.
    pub fn add_cond(&mut self, e: Ex)
        ensures
            final(self)@ == with_cond(old(self)@, e),
    {
        self.pathcond.push(e);
    }

    /// Add a region.
    pub fn add_region(&mut self, r: SymRegion) -> (i: usize)
        ensures
            i == old(self).regions@.len(),
            final(self)@ == with_region(old(self)@, r),
    {
        let i: usize = self.regions.len();
        self.regions.push(r);
        i
    }

    /// The premises of the path: its conditions, then its facts, then more.
    pub fn premises_and(&self, extra: &Vec<Ex>) -> (r: Vec<Ex>)
        ensures
            r@ == premises(self@) + extra@,
    {
        let mut out = copy_exprs(&self.pathcond);
        let mut f = copy_exprs(&self.facts);
        let mut x = copy_exprs(extra);
        out.append(&mut f);
        out.append(&mut x);
        out
    }
}

// ---- provenance ----

/// Two provenances are the same, whatever an untracked one comes from.
pub open spec fn same_prov(a: Prov, b: Prov) -> bool
    decreases a,
{
    match (a, b) {
        (Prov::Null, Prov::Null) => true,
        (Prov::Region(x), Prov::Region(y)) => x == y,
        (Prov::Unknown(_), Prov::Unknown(_)) => true,
        (
            Prov::Select { cond: c, then_ptr: t, else_ptr: e },
            Prov::Select { cond: d, then_ptr: u, else_ptr: f },
        ) => c == d && same_prov(t.prov, u.prov) && t.offset == u.offset && t.align == u.align
            && same_prov(e.prov, f.prov) && e.offset == f.offset && e.align == f.align,
        _ => false,
    }
}

/// Whether two provenances are the same.
pub fn provs_same(a: &Prov, b: &Prov) -> (r: bool)
    ensures
        r == same_prov(*a, *b),
    decreases a,
{
    match (a, b) {
        (Prov::Null, Prov::Null) => true,
        (Prov::Region(x), Prov::Region(y)) => *x == *y,
        (Prov::Unknown(_), Prov::Unknown(_)) => true,
        (
            Prov::Select { cond: c, then_ptr: t, else_ptr: e },
            Prov::Select { cond: d, then_ptr: u, else_ptr: f },
        ) => same(c, d) && provs_same(&t.prov, &u.prov) && same(&t.offset, &u.offset) && t.align
            == u.align && provs_same(&e.prov, &f.prov) && same(&e.offset, &f.offset) && e.align
            == f.align,
        _ => false,
    }
}

/// Two pointers are at the same address.
pub open spec fn same_addr(a: SymPointer, b: SymPointer) -> bool {
    same_prov(a.prov, b.prov) && a.offset == b.offset
}

/// Whether two pointers are at the same address.
pub fn addrs_same(a: &SymPointer, b: &SymPointer) -> (r: bool)
    ensures
        r == same_addr(*a, *b),
{
    provs_same(&a.prov, &b.prov) && same(&a.offset, &b.offset)
}

/// Sameness of provenance is an equivalence.
pub proof fn same_prov_is_an_equivalence(a: Prov, b: Prov, c: Prov)
    ensures
        same_prov(a, a),
        same_prov(a, b) ==> same_prov(b, a),
        same_prov(a, b) && same_prov(b, c) ==> same_prov(a, c),
    decreases a,
{
    if let Prov::Select { then_ptr: t, else_ptr: e, .. } = a {
        match (b, c) {
            (
                Prov::Select { then_ptr: u, else_ptr: f, .. },
                Prov::Select { then_ptr: v, else_ptr: g, .. },
            ) => {
                same_prov_is_an_equivalence(t.prov, u.prov, v.prov);
                same_prov_is_an_equivalence(e.prov, f.prov, g.prov);
            },
            (Prov::Select { then_ptr: u, else_ptr: f, .. }, _) => {
                same_prov_is_an_equivalence(t.prov, u.prov, t.prov);
                same_prov_is_an_equivalence(e.prov, f.prov, e.prov);
            },
            _ => {
                same_prov_is_an_equivalence(t.prov, t.prov, t.prov);
                same_prov_is_an_equivalence(e.prov, e.prov, e.prov);
            },
        }
    }
}

/// Why a pointer is not tracked.
pub open spec fn prov_text(p: Prov) -> &'static str {
    match p {
        Prov::Null => "pointer provenance is not tracked: null or integer-derived pointer",
        Prov::Unknown(o) => origin_text(o),
        _ => "pointer provenance is not tracked",
    }
}

/// The nesting of choices in a provenance.
pub open spec fn select_depth(p: Prov) -> nat
    decreases p,
{
    match p {
        Prov::Select { then_ptr, else_ptr, .. } => 1 + if select_depth(then_ptr.prov)
            > select_depth(else_ptr.prov) {
            select_depth(then_ptr.prov)
        } else {
            select_depth(else_ptr.prov)
        },
        _ => 0,
    }
}

/// Whether choices are nested to the depth `limit` or deeper.
pub fn deeper_than(p: &Prov, limit: u32) -> (r: bool)
    ensures
        r == (select_depth(*p) >= limit),
    decreases p,
{
    if limit == 0 {
        return true;
    }
    match p {
        Prov::Select { then_ptr, else_ptr, .. } => deeper_than(&then_ptr.prov, limit - 1)
            || deeper_than(&else_ptr.prov, limit - 1),
        _ => false,
    }
}

/// Every region that a pointer may point into is among the first `count`.
pub open spec fn regions_kept(p: Prov, count: int) -> bool
    decreases p,
{
    match p {
        Prov::Region(r) => r < count,
        Prov::Select { then_ptr, else_ptr, .. } => regions_kept(then_ptr.prov, count)
            && regions_kept(else_ptr.prov, count),
        _ => true,
    }
}

/// Whether every region that a pointer may point into is among the first `count`.
pub fn pointer_regions_kept(p: &Prov, count: usize) -> (r: bool)
    ensures
        r == regions_kept(*p, count as int),
    decreases p,
{
    match p {
        Prov::Region(r) => *r < count,
        Prov::Select { then_ptr, else_ptr, .. } => pointer_regions_kept(&then_ptr.prov, count)
            && pointer_regions_kept(&else_ptr.prov, count),
        _ => true,
    }
}

impl Prov {
    /// Why a pointer is not tracked.
    pub fn provenance_residual(&self) -> (s: &'static str)
        ensures
            s == prov_text(*self),
    {
        match self {
            Prov::Null => "pointer provenance is not tracked: null or integer-derived pointer",
            Prov::Unknown(o) => o.residual(),
            _ => "pointer provenance is not tracked",
        }
    }
}

// ---- numbers ----

/// The greatest common divisor, at least 1.
pub open spec fn common(a: int, b: int) -> int
    decreases b,
{
    if b <= 0 {
        if a > 1 {
            a
        } else {
            1
        }
    } else {
        common(b, a % b)
    }
}

/// The greatest common divisor, at least 1.
pub fn gcd(a: u64, b: u64) -> (g: u64)
    ensures
        g == common(a as int, b as int),
        g >= 1,
{
    let mut x: u64 = a;
    let mut y: u64 = b;
    while y != 0
        invariant
            common(a as int, b as int) == common(x as int, y as int),
        decreases y,
    {
        let r: u64 = x % y;
        x = y;
        y = r;
    }
    if x > 1 {
        x
    } else {
        1
    }
}

/// The greatest common divisor divides both numbers.
pub proof fn gcd_divides(a: int, b: int)
    requires
        0 <= a,
        0 <= b,
    ensures
        common(a, b) >= 1,
        a % common(a, b) == 0,
        b % common(a, b) == 0,
    decreases b,
{
    if b > 0 {
        let r = a % b;
        gcd_divides(b, r);
        let g = common(a, b);
        vstd::arithmetic::div_mod::lemma_fundamental_div_mod(a, b);
        vstd::arithmetic::div_mod::lemma_fundamental_div_mod(b, g);
        vstd::arithmetic::div_mod::lemma_fundamental_div_mod(r, g);
        let x = b / g;
        let y = r / g;
        let q = a / b;
        assert(a == (x * q + y) * g) by (nonlinear_arith)
            requires
                a == b * q + r,
                b == g * x,
                r == g * y,
        ;
        vstd::arithmetic::div_mod::lemma_mod_multiples_basic(x * q + y, g);
    } else {
        assert(a % common(a, 0) == 0) by {
            if a > 1 {
                vstd::arithmetic::div_mod::lemma_mod_self_0(a);
            }
        }
    }
}

/// The width of values of a type.
pub open spec fn value_width(t: Type) -> u32 {
    match t {
        Type::Bool => 1,
        Type::Int { bits } => bits,
        _ => PTR_WIDTH,
    }
}

/// The width of values of a type.
pub fn type_width(t: &Type) -> (w: u32)
    ensures
        w == value_width(*t),
{
    match t {
        Type::Bool => 1,
        Type::Int { bits } => *bits,
        _ => PTR_WIDTH,
    }
}

} // verus!
