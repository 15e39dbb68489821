//! Where places are, and what statements read and write.

use crate::ir::{size_of_type, stride_of, CalleeView, Inst, InstView, Operand, RValue, RegId};
use crate::meaning::{gives, read, truth_bit, wrapped, Reading};
use crate::mir::ast::{BinKind, CalleeSpec, MConst, MOperand, MRvalue, MStmt, MTerm, MType, Place};
use crate::mir::laws::{applies, constants_keep_their_values, operators_keep_their_meaning};
use crate::mir::lower::{
    access, field_path, in_memory, index_base, ir_type, of_local, operand_value,
    operand_values, path_index, place_cost, rvalue_into, statement, terminator, Env, NESTED_FIELD_BASE, State,
};
use vstd::prelude::*;

verus! {

// ---- what MIR means ----

/// What registers and memory hold, and where fields are.
pub struct Situation {
    /// The values of registers.
    pub regs: Reading,
    /// The value of some bytes at an address.
    pub mem: spec_fn(int, int) -> int,
    /// The address of the field at a path, behind a pointer.
    pub fields: spec_fn(int, Seq<u32>) -> int,
}

/// A field of a field is at the longer path.
pub open spec fn composes(st: Situation) -> bool {
    &&& forall|a: int| #[trigger] (st.fields)(a, Seq::<u32>::empty()) == a
    &&& forall|a: int, p: Seq<u32>, f: u32|
        (st.fields)((st.fields)(a, p), seq![f]) == #[trigger] (st.fields)(a, p.push(f))
}

/// The type of a place. Slices are indexed behind a pointer.
pub open spec fn place_type(env: Env, p: Place) -> Option<MType>
    decreases p,
{
    match p {
        Place::Local(l) => of_local(env.types, l),
        Place::Deref(b) => match place_type(env, *b) {
            Some(MType::Ref(t, _)) => Some(*t),
            Some(MType::Ptr(t, _)) => Some(*t),
            _ => None,
        },
        Place::Index(b, _) => element_type(place_type(env, *b), *b is Deref),
        Place::ConstIndex(b, _) => element_type(place_type(env, *b), *b is Deref),
        Place::Field(_, _, t) => t,
    }
}

/// The type of the elements of an array, or of a slice behind a pointer.
pub open spec fn element_type(t: Option<MType>, behind: bool) -> Option<MType> {
    match t {
        Some(MType::Array(e, _)) => Some(*e),
        Some(MType::Slice(e)) => if behind {
            Some(*e)
        } else {
            None
        },
        _ => None,
    }
}

/// The distance between elements of a type.
pub open spec fn distance(t: Option<MType>) -> int {
    match t {
        Some(t) => stride_of(ir_type(t)),
        None => 0,
    }
}

/// The address of a place behind a pointer: that in the pointer, moved by whole elements for
/// an index, and to a field.
pub open spec fn address(env: Env, st: Situation, p: Place) -> int
    decreases p,
{
    match p {
        Place::Local(_) => 0,
        Place::Deref(b) => match *b {
            Place::Local(l) => (st.regs.regs)(RegId(l)),
            _ => 0,
        },
        Place::Index(b, i) => address(env, st, *b) + (st.regs.regs)(RegId(i)) * distance(
            place_type(env, p),
        ),
        Place::ConstIndex(b, n) => address(env, st, *b) + n * distance(place_type(env, p)),
        Place::Field(b, f, _) => (st.fields)(address(env, st, *b), seq![f]),
    }
}

/// The value at a place: that of a local, or what memory holds at its address.
pub open spec fn content(env: Env, st: Situation, p: Place) -> int {
    match p {
        Place::Local(l) => (st.regs.regs)(RegId(l)),
        _ => (st.mem)(address(env, st, p), size_of_type(ir_type(place_type(env, p)->0))),
    }
}

/// The value of an operand.
pub open spec fn meant(env: Env, st: Situation, op: MOperand) -> int {
    match op {
        MOperand::Const(MConst::Int(n)) => wrapped(n as int, 64),
        MOperand::Const(MConst::Bool(b)) => truth_bit(b),
        MOperand::Copy(p) => content(env, st, p),
        MOperand::Move(p) => content(env, st, p),
    }
}

/// A place names locals below `n` and fields that are not numbered as paths are.
pub open spec fn within(p: Place, n: int) -> bool
    decreases p,
{
    match p {
        Place::Local(l) => l < n,
        Place::Deref(b) => within(*b, n),
        Place::Index(b, i) => within(*b, n) && i < n,
        Place::ConstIndex(b, _) => within(*b, n),
        Place::Field(b, f, _) => within(*b, n) && f < NESTED_FIELD_BASE,
    }
}

/// A place behind a pointer, of a known type, whose access can be lowered in a state that has
/// room for it.
pub open spec fn reachable(env: Env, s: State, p: Place) -> bool {
    &&& in_memory(p)
    &&& place_type(env, p) is Some
    &&& access(env, s, p).1 is Some
    &&& within(p, s.next)
    &&& roomy(s, place_cost(p))
}

/// There is room for `n` more registers and paths.
pub open spec fn roomy(s: State, n: nat) -> bool {
    &&& 0 <= s.next
    &&& s.next + n <= u32::MAX
    &&& NESTED_FIELD_BASE + s.paths.len() + n <= u32::MAX
}

/// An operand that is a constant, a local or a reachable place.
pub open spec fn simple(env: Env, s: State, op: MOperand) -> bool {
    match op {
        MOperand::Const(_) => 0 <= s.next,
        MOperand::Copy(p) => simple_place(env, s, p),
        MOperand::Move(p) => simple_place(env, s, p),
    }
}

/// A local, or a reachable place with room for its value.
pub open spec fn simple_place(env: Env, s: State, p: Place) -> bool {
    match p {
        Place::Local(l) => l < s.next,
        _ => reachable(env, s, p) && roomy(s, place_cost(p) + 1),
    }
}

// ---- what instructions do ----

/// The path of fields that a number stands for.
pub open spec fn numbered(paths: Seq<Seq<u32>>, id: u32) -> Seq<u32> {
    if id < NESTED_FIELD_BASE {
        seq![id]
    } else {
        paths[id - NESTED_FIELD_BASE]
    }
}

/// A register set.
pub open spec fn set(st: Situation, dst: RegId, x: int) -> Situation {
    let old_regs = st.regs.regs;
    Situation {
        regs: Reading {
            regs: |q: RegId|
                if q == dst {
                    x
                } else {
                    old_regs(q)
                },
            ..st.regs
        },
        ..st
    }
}

/// Some bytes written. Others that overlap them are not known afterwards.
pub open spec fn written(st: Situation, a: int, n: int, x: int) -> Situation {
    let old_mem = st.mem;
    Situation {
        mem: |b: int, k: int|
            if b == a && k == n {
                x
            } else if b + k <= a || a + n <= b {
                old_mem(b, k)
            } else {
                st.regs.unknown
            },
        ..st
    }
}

/// The situation after an instruction.
pub open spec fn after_one(st: Situation, paths: Seq<Seq<u32>>, i: InstView) -> Situation {
    match i {
        InstView::Plain(Inst::PtrOffset { dst, base, index, elem }) => set(
            st,
            dst,
            read(st.regs, base) + read(st.regs, index) * stride_of(elem),
        ),
        InstView::Plain(Inst::FieldPtr { dst, base, field, .. }) => set(
            st,
            dst,
            (st.fields)(read(st.regs, base), numbered(paths, field)),
        ),
        InstView::Plain(Inst::Load { dst, ty, ptr, .. }) => set(
            st,
            dst,
            (st.mem)(read(st.regs, ptr), size_of_type(ty)),
        ),
        InstView::Plain(Inst::Assign { dst, value: RValue::Use(op), .. }) => set(
            st,
            dst,
            read(st.regs, op),
        ),
        InstView::Plain(Inst::Store { ty, ptr, value, .. }) => written(
            st,
            read(st.regs, ptr),
            size_of_type(ty),
            read(st.regs, value),
        ),
        _ => st,
    }
}

/// The situation after the instructions from position `from` on.
pub open spec fn after(st: Situation, paths: Seq<Seq<u32>>, out: Seq<InstView>, from: int) -> Situation
    decreases out.len(),
{
    if out.len() <= from || out.len() == 0 {
        st
    } else {
        after_one(after(st, paths, out.drop_last(), from), paths, out.last())
    }
}

/// One sequence starts with another.
pub open spec fn starts_with<A>(long: Seq<A>, short: Seq<A>) -> bool {
    &&& short.len() <= long.len()
    &&& long.take(short.len() as int) == short
}

/// Nothing that was there before changed: memory, and registers below `n`.
pub open spec fn undisturbed(a: Situation, b: Situation, n: int) -> bool {
    &&& b.mem == a.mem
    &&& b.fields == a.fields
    &&& b.regs.unknown == a.regs.unknown
    &&& b.regs.symbols == a.regs.symbols
    &&& forall|q: RegId| q.0 < n ==> #[trigger] (b.regs.regs)(q) == (a.regs.regs)(q)
}

// ---- accesses ----

proof fn lemma_push(st: Situation, paths: Seq<Seq<u32>>, out: Seq<InstView>, x: InstView, from: int)
    requires
        0 <= from <= out.len(),
    ensures
        after(st, paths, out.push(x), from) == after_one(after(st, paths, out, from), paths, x),
{
    assert(out.push(x).drop_last() =~= out);
}

proof fn lemma_split(
    st: Situation,
    paths: Seq<Seq<u32>>,
    long: Seq<InstView>,
    short: Seq<InstView>,
    from: int,
)
    requires
        starts_with(long, short),
        0 <= from <= short.len(),
    ensures
        after(st, paths, long, from) == after(
            after(st, paths, short, from),
            paths,
            long,
            short.len() as int,
        ),
    decreases long.len(),
{
    if long.len() > short.len() {
        assert(long.drop_last().take(short.len() as int) =~= long.take(short.len() as int));
        lemma_split(st, paths, long.drop_last(), short, from);
    } else {
        assert(long.take(short.len() as int) =~= long);
    }
}

proof fn lemma_field(env: Env, st: Situation, p: Place)
    requires
        composes(st),
        field_path(p) is Some,
    ensures
        ({
            let (l, path) = field_path(p)->0;
            address(env, st, p) == (st.fields)((st.regs.regs)(RegId(l)), path)
        }),
    decreases p,
{
    match p {
        Place::Field(b, f, _) => {
            lemma_field(env, st, *b);
            let (l, path) = field_path(*b)->0;
            assert((st.fields)((st.fields)((st.regs.regs)(RegId(l)), path), seq![f]) == (st.fields)(
                (st.regs.regs)(RegId(l)),
                path.push(f),
            ));
        },
        Place::Deref(b) => {
            let (l, path) = field_path(p)->0;
            assert((st.fields)((st.regs.regs)(RegId(l)), Seq::<u32>::empty()) == (st.regs.regs)(
                RegId(l),
            ));
        },
        _ => {},
    }
}

proof fn lemma_fits(p: Place, n: int)
    requires
        within(p, n),
        field_path(p) is Some,
    ensures
        ({
            let (l, path) = field_path(p)->0;
            &&& l < n
            &&& p is Field ==> path.len() > 0 && path.last() < NESTED_FIELD_BASE
            &&& path.len() == 1 ==> path[0] < NESTED_FIELD_BASE
        }),
    decreases p,
{
    match p {
        Place::Field(b, f, _) => {
            lemma_fits(*b, n);
        },
        Place::Deref(b) => {
            assert(within(*b, n));
        },
        _ => {},
    }
}

proof fn lemma_index(paths: Seq<Seq<u32>>, path: Seq<u32>)
    ensures
        0 <= path_index(paths, path) <= paths.len(),
        path_index(paths, path) < paths.len() ==> paths[path_index(paths, path)] == path,
    decreases paths.len(),
{
    if paths.len() > 0 {
        lemma_index(paths.drop_last(), path);
    }
}

proof fn lemma_number(n: u64, v: Reading)
    ensures
        read(v, crate::ir::int_operand(64, n as u128)) == n,
{
    crate::meaning::low_bits_are_a_remainder(64, n as u128);
    vstd::arithmetic::power2::lemma2_to64();
    vstd::arithmetic::div_mod::lemma_small_mod(n as nat, 0x1_0000_0000_0000_0000nat);
}

/// What an access produces is a pointer to the place, of the place's type, and nothing else
/// changes.
pub open spec fn reaches_place(
    env: Env,
    s: State,
    p: Place,
    st: Situation,
    all: Seq<Seq<u32>>,
) -> bool {
    let (s1, r) = access(env, s, p);
    let (reg, ty) = r->0;
    let e = after(st, all, s1.out, s.out.len() as int);
    &&& starts_with(s1.out, s.out)
    &&& starts_with(s1.paths, s.paths)
    &&& s.next <= s1.next <= s.next + place_cost(p)
    &&& s1.paths.len() <= s.paths.len() + place_cost(p)
    &&& undisturbed(st, e, s.next)
    &&& (e.regs.regs)(reg) == address(env, st, p)
    &&& ty == ir_type(place_type(env, p)->0)
    &&& reg.0 < s1.next
}

proof fn lemma_added<A>(s: Seq<A>, x: A)
    ensures
        starts_with(s.push(x), s),
        starts_with(s, s),
{
    assert(s.push(x).take(s.len() as int) =~= s);
    assert(s.take(s.len() as int) =~= s);
}

proof fn lemma_longer<A>(c: Seq<A>, b: Seq<A>, a: Seq<A>)
    requires
        starts_with(c, b),
        starts_with(b, a),
    ensures
        starts_with(c, a),
{
    assert(c.take(a.len() as int) =~= b.take(a.len() as int));
}

proof fn lemma_field_access(env: Env, s: State, p: Place, st: Situation, all: Seq<Seq<u32>>)
    requires
        composes(st),
        p is Field,
        reachable(env, s, p),
        starts_with(all, access(env, s, p).0.paths),
    ensures
        reaches_place(env, s, p, st, all),
{
    let (l, path) = field_path(p)->0;
    let (s1, r) = access(env, s, p);
    lemma_field(env, st, p);
    lemma_fits(p, s.next);
    lemma_index(s.paths, path);
    lemma_added(s.paths, path);
    let x = s1.out.last();
    assert(s1.out =~= s.out.push(x));
    lemma_added(s.out, x);
    lemma_push(st, all, s.out, x, s.out.len() as int);
    let id = x->Plain_0->FieldPtr_field;
    if path.len() == 1 {
        assert(path =~= seq![path[0]]);
    } else {
        let i = path_index(s.paths, path);
        assert(s1.paths[i] == path);
        assert(all[i] == all.take(s1.paths.len() as int)[i]);
    }
    assert(numbered(all, id) == path);
}

proof fn lemma_access(env: Env, s: State, p: Place, st: Situation, all: Seq<Seq<u32>>)
    requires
        composes(st),
        reachable(env, s, p),
        starts_with(all, access(env, s, p).0.paths),
    ensures
        reaches_place(env, s, p, st, all),
    decreases p, 0int,
{
    lemma_added(s.out, InstView::Plain(Inst::Barrier { kind: 0 }));
    lemma_added(s.paths, Seq::empty());
    match p {
        Place::Deref(b) => {
            let l = b->Local_0;
            assert(*b == Place::Local(l));
            assert(within(*b, s.next));
            assert(place_type(env, *b) == of_local(env.types, l));
            assert(after(st, all, s.out, s.out.len() as int) == st);
        },
        Place::Field(_, _, _) => {
            lemma_field_access(env, s, p, st, all);
        },
        Place::Index(b, i) => {
            lemma_element(env, s, p, *b, st, all);
        },
        Place::ConstIndex(b, n) => {
            lemma_number(n, after(st, all, index_base(env, s, *b).0.out, s.out.len() as int).regs);
            lemma_element(env, s, p, *b, st, all);
        },
        Place::Local(_) => {},
    }
}

proof fn lemma_element(env: Env, s: State, p: Place, b: Place, st: Situation, all: Seq<Seq<u32>>)
    requires
        composes(st),
        reachable(env, s, p),
        starts_with(all, access(env, s, p).0.paths),
        match p {
            Place::Index(x, _) => *x == b,
            Place::ConstIndex(y, n) => *y == b && read(
                after(st, all, index_base(env, s, b).0.out, s.out.len() as int).regs,
                crate::ir::int_operand(64, n as u128),
            ) == n,
            _ => false,
        },
    ensures
        reaches_place(env, s, p, st, all),
    decreases b, 1int,
{
    let (s0, r0) = index_base(env, s, b);
    let (s1, r) = access(env, s, p);
    let from = s.out.len() as int;
    lemma_added(s.out, InstView::Plain(Inst::Barrier { kind: 0 }));
    lemma_added(s.paths, Seq::empty());
    if !(b is Deref) {
        assert(access(env, s, b).1 is Some);
        assert(in_memory(b));
        assert(place_type(env, b) is Some);
        lemma_access(env, s, b, st, all);
    } else {
        assert(s0 == s);
        let inner = b->Deref_0;
        assert(*inner is Local);
        assert(place_type(env, *inner) == of_local(env.types, inner->Local_0));
    }
    let e0 = after(st, all, s0.out, from);
    let x = s1.out.last();
    assert(s1.out =~= s0.out.push(x));
    lemma_added(s0.out, x);
    lemma_longer(s1.out, s0.out, s.out);
    lemma_push(st, all, s0.out, x, from);
    assert(read(e0.regs, (r0->0).0) == address(env, st, b));
    assert((r0->0).1 == ir_type(place_type(env, p)->0));
}

/// The pointer that an access produces is the address of the place, and points to the place's
/// type. Memory and the registers in use stay as they were.
pub proof fn accesses_reach_their_place(env: Env, s: State, p: Place, st: Situation)
    requires
        composes(st),
        reachable(env, s, p),
    ensures
        ({
            let (s1, r) = access(env, s, p);
            let e = after(st, s1.paths, s1.out, s.out.len() as int);
            &&& r matches Some((reg, ty)) && (e.regs.regs)(reg) == address(env, st, p) && ty
                == ir_type(place_type(env, p)->0)
            &&& undisturbed(st, e, s.next)
        }),
{
    let (s1, r) = access(env, s, p);
    lemma_added(s1.paths, Seq::empty());
    lemma_access(env, s, p, st, s1.paths);
}

// ---- operands ----

/// What an operand becomes has the operand's value.
pub open spec fn reads_operand(
    env: Env,
    s: State,
    op: MOperand,
    st: Situation,
    all: Seq<Seq<u32>>,
) -> bool {
    let (s1, o) = operand_value(env, s, op);
    let e = after(st, all, s1.out, s.out.len() as int);
    &&& starts_with(s1.out, s.out)
    &&& starts_with(s1.paths, s.paths)
    &&& s.next <= s1.next
    &&& undisturbed(st, e, s.next)
    &&& read(e.regs, o) == meant(env, st, op)
}

proof fn lemma_place(env: Env, s: State, p: Place, op: MOperand, st: Situation, all: Seq<Seq<u32>>)
    requires
        composes(st),
        op == MOperand::Copy(p) || op == MOperand::Move(p),
        simple(env, s, op),
        starts_with(all, operand_value(env, s, op).0.paths),
    ensures
        reads_operand(env, s, op, st, all),
{
    lemma_added(s.out, InstView::Plain(Inst::Barrier { kind: 0 }));
    lemma_added(s.paths, Seq::empty());
    if !(p is Local) {
        let (s0, r) = access(env, s, p);
        let (s1, o) = operand_value(env, s, op);
        assert(crate::mir::lower::first_field(p) is None) by {
            if let Place::Field(inner, 0, _) = p {
                assert(in_memory(*inner));
            }
        }
        lemma_access(env, s, p, st, all);
        let x = s1.out.last();
        assert(s1.out =~= s0.out.push(x));
        lemma_added(s0.out, x);
        lemma_longer(s1.out, s0.out, s.out);
        lemma_push(st, all, s0.out, x, s.out.len() as int);
    }
}

proof fn lemma_operand(env: Env, s: State, op: MOperand, st: Situation, all: Seq<Seq<u32>>)
    requires
        composes(st),
        simple(env, s, op),
        starts_with(all, operand_value(env, s, op).0.paths),
    ensures
        reads_operand(env, s, op, st, all),
{
    lemma_added(s.out, InstView::Plain(Inst::Barrier { kind: 0 }));
    lemma_added(s.paths, Seq::empty());
    match op {
        MOperand::Const(c) => {
            constants_keep_their_values(env, s, c, st.regs);
        },
        MOperand::Copy(p) => {
            lemma_place(env, s, p, op, st, all);
        },
        MOperand::Move(p) => {
            lemma_place(env, s, p, op, st, all);
        },
    }
}

proof fn lemma_paths_kept(env: Env, s: State, op: MOperand)
    requires
        simple(env, s, op),
    ensures
        starts_with(operand_value(env, s, op).0.paths, s.paths),
{
    let st = Situation {
        regs: Reading { regs: |r: RegId| 0, symbols: |n: Seq<char>| 0, unknown: 0 },
        mem: |a: int, n: int| 0,
        fields: |a: int, p: Seq<u32>| a,
    };
    assert(composes(st));
    let all = operand_value(env, s, op).0.paths;
    lemma_added(all, Seq::empty());
    lemma_operand(env, s, op, st, all);
}

/// A lowered operand has the value of the operand: a constant its pattern, a local what its
/// register holds, and a place behind a pointer what memory holds there.
pub proof fn operands_keep_their_values(env: Env, s: State, op: MOperand, st: Situation)
    requires
        composes(st),
        simple(env, s, op),
    ensures
        ({
            let (s1, o) = operand_value(env, s, op);
            let e = after(st, s1.paths, s1.out, s.out.len() as int);
            &&& read(e.regs, o) == meant(env, st, op)
            &&& undisturbed(st, e, s.next)
        }),
{
    let s1 = operand_value(env, s, op).0;
    lemma_added(s1.paths, Seq::empty());
    lemma_operand(env, s, op, st, s1.paths);
}

// ---- assignments ----

/// A register other than one, and memory, stay as they were.
pub open spec fn only_sets(a: Situation, b: Situation, dst: RegId, n: int) -> bool {
    &&& b.mem == a.mem
    &&& forall|q: RegId|
        q.0 < n && q != dst ==> #[trigger] (b.regs.regs)(q) == (a.regs.regs)(q)
}

/// A local that is assigned an operand holds the operand's value afterwards, also where the
/// operand is cast.
pub proof fn uses_are_assigned(env: Env, s: State, d: u32, op: MOperand, cast: bool, st: Situation)
    requires
        composes(st),
        simple(env, s, op),
        d < s.next,
    ensures
        ({
            let rv = if cast {
                MRvalue::Cast(op)
            } else {
                MRvalue::Use(op)
            };
            let s1 = statement(env, s, MStmt::Assign(Place::Local(d), rv));
            let e = after(st, s1.paths, s1.out, s.out.len() as int);
            &&& (e.regs.regs)(RegId(d)) == meant(env, st, op)
            &&& only_sets(st, e, RegId(d), s.next)
        }),
{
    let rv = if cast {
        MRvalue::Cast(op)
    } else {
        MRvalue::Use(op)
    };
    let s1 = rvalue_into(env, s, RegId(d), rv);
    let place = match op {
        MOperand::Copy(p) => Some(p),
        MOperand::Move(p) => Some(p),
        MOperand::Const(_) => None,
    };
    let from = s.out.len() as int;
    let x = s1.out.last();
    lemma_added(s1.paths, Seq::empty());
    lemma_added(s.out, x);
    if !cast && place is Some && in_memory(place->0) {
        let s0 = access(env, s, place->0).0;
        lemma_access(env, s, place->0, st, s1.paths);
        assert(s1.out =~= s0.out.push(x));
        lemma_push(st, s1.paths, s0.out, x, from);
    } else {
        let s0 = operand_value(env, s, op).0;
        lemma_operand(env, s, op, st, s1.paths);
        assert(s1.out =~= s0.out.push(x));
        lemma_push(st, s1.paths, s0.out, x, from);
    }
}

/// A local that is assigned a reference to a place behind a pointer holds the place's address
/// afterwards.
pub proof fn references_are_addresses(env: Env, s: State, d: u32, p: Place, st: Situation)
    requires
        composes(st),
        reachable(env, s, p),
        d < s.next,
    ensures
        ({
            let s1 = statement(env, s, MStmt::Assign(Place::Local(d), MRvalue::Ref(p)));
            let e = after(st, s1.paths, s1.out, s.out.len() as int);
            &&& (e.regs.regs)(RegId(d)) == address(env, st, p)
            &&& only_sets(st, e, RegId(d), s.next)
        }),
{
    let s1 = rvalue_into(env, s, RegId(d), MRvalue::Ref(p));
    let s0 = access(env, s, p).0;
    let x = s1.out.last();
    lemma_added(s1.paths, Seq::empty());
    lemma_access(env, s, p, st, s1.paths);
    assert(s1.out =~= s0.out.push(x));
    lemma_push(st, s1.paths, s0.out, x, s.out.len() as int);
}

proof fn lemma_same_address(env: Env, a: Situation, b: Situation, p: Place, n: int)
    requires
        undisturbed(a, b, n),
        within(p, n),
    ensures
        address(env, a, p) == address(env, b, p),
    decreases p,
{
    match p {
        Place::Local(_) => {},
        Place::Deref(b1) => {
            assert(within(*b1, n));
            if let Place::Local(r) = *b1 {
                assert((b.regs.regs)(RegId(r)) == (a.regs.regs)(RegId(r)));
            }
        },
        Place::Index(b1, i) => {
            assert((b.regs.regs)(RegId(i)) == (a.regs.regs)(RegId(i)));
            lemma_same_address(env, a, b, *b1, n);
        },
        Place::ConstIndex(b1, _) => {
            lemma_same_address(env, a, b, *b1, n);
        },
        Place::Field(b1, _, _) => {
            lemma_same_address(env, a, b, *b1, n);
        },
    }
}

/// An assignment to a place behind a pointer writes the operand's value there, as many bytes as
/// the place's type has, and no others.
pub proof fn assignments_write_their_place(
    env: Env,
    s: State,
    p: Place,
    op: MOperand,
    st: Situation,
    a: int,
    n: int,
)
    requires
        composes(st),
        reachable(env, s, p),
        simple(env, s, op),
        simple(env, access(env, s, p).0, op),
    ensures
        ({
            let s1 = statement(env, s, MStmt::Assign(p, MRvalue::Use(op)));
            let e = after(st, s1.paths, s1.out, s.out.len() as int);
            let at = address(env, st, p);
            let size = size_of_type(ir_type(place_type(env, p)->0));
            &&& (e.mem)(at, size) == meant(env, st, op)
            &&& a + n <= at || at + size <= a ==> (a == at && n == size) || (e.mem)(a, n) == (st.mem)(
                a,
                n,
            )
        }),
{
    let s1 = statement(env, s, MStmt::Assign(p, MRvalue::Use(op)));
    let (s0, r) = access(env, s, p);
    let s2 = operand_value(env, s0, op).0;
    let from = s.out.len() as int;
    let x = s1.out.last();
    let reg = (r->0).0;
    assert(s1.out =~= s2.out.push(x));
    assert(s1.paths == s2.paths);
    lemma_added(s2.paths, Seq::empty());
    let e0 = after(st, s1.paths, s0.out, from);
    lemma_paths_kept(env, s0, op);
    lemma_access(env, s, p, st, s1.paths);
    lemma_operand(env, s0, op, e0, s1.paths);
    lemma_split(st, s1.paths, s2.out, s0.out, from);
    lemma_longer(s2.out, s0.out, s.out);
    lemma_push(st, s1.paths, s2.out, x, from);
    match op {
        MOperand::Copy(q) => {
            if !(q is Local) {
                lemma_same_address(env, st, e0, q, s.next);
            }
        },
        MOperand::Move(q) => {
            if !(q is Local) {
                lemma_same_address(env, st, e0, q, s.next);
            }
        },
        MOperand::Const(_) => {},
    }
}

/// The first part of what checked arithmetic gives is what the operator computes.
pub proof fn checked_results_are_read_back(
    env: Env,
    s: State,
    d: u32,
    kind: BinKind,
    a: MOperand,
    b: MOperand,
    t: Option<MType>,
    v: Reading,
    r: int,
)
    requires
        kind != BinKind::Other,
    ensures
        ({
            let (s1, x) = operand_value(env, s, a);
            let (s2, y) = operand_value(env, s1, b);
            let s3 = statement(
                env,
                s,
                MStmt::Assign(Place::Local(d), MRvalue::CheckedBin(kind, a, b)),
            );
            let part = MOperand::Copy(Place::Field(Box::new(Place::Local(d)), 0, t));
            &&& s3.out.len() == s2.out.len() + 1
            &&& s3.out.drop_last() == s2.out
            &&& s3.out.last() matches InstView::Plain(Inst::Assign { dst, value, .. }) && (gives(
                value,
                v,
                64,
                r,
            ) <==> applies(kind, read(v, x), read(v, y), 64, r)) && operand_value(env, s3, part)
                == (s3, Operand::Reg(dst))
        }),
{
    let (s1, x) = operand_value(env, s, a);
    let (s2, y) = operand_value(env, s1, b);
    operators_keep_their_meaning(kind, x, y, v, 64, r);
    let s3 = statement(env, s, MStmt::Assign(Place::Local(d), MRvalue::CheckedBin(kind, a, b)));
    assert(s3.out.drop_last() =~= s2.out);
}

// ---- lengths ----

/// The registers of lengths hold the lengths of slices.
pub open spec fn lengths_right(s: State, st: Situation, lens: spec_fn(u32) -> int) -> bool {
    forall|l: u32| #[trigger]
        s.lengths.contains_key(l) ==> (st.regs.regs)(RegId(s.lengths[l])) == lens(l)
}

/// The length of an array is that of its type, and the length of a slice behind a local pointer
/// is the slice's.
pub proof fn lengths_are_read(
    env: Env,
    s: State,
    d: u32,
    p: Place,
    st: Situation,
    lens: spec_fn(u32) -> int,
)
    requires
        lengths_right(s, st, lens),
        p matches Place::Deref(b) ==> *b is Local,
        p is Deref || p is Local,
    ensures
        ({
            let s1 = statement(env, s, MStmt::Assign(Place::Local(d), MRvalue::Len(p)));
            let e = after(st, s1.paths, s1.out, s.out.len() as int);
            let x = (e.regs.regs)(RegId(d));
            match place_type(env, p) {
                Some(MType::Array(_, n)) => x == n,
                Some(MType::Slice(_)) => p matches Place::Deref(b) && s.lengths.contains_key(
                    b->Local_0,
                ) ==> x == lens(p->Deref_0->Local_0),
                _ => true,
            }
        }),
{
    let s1 = statement(env, s, MStmt::Assign(Place::Local(d), MRvalue::Len(p)));
    let x = s1.out.last();
    assert(s1.out =~= s.out.push(x));
    lemma_push(st, s1.paths, s.out, x, s.out.len() as int);
    match place_type(env, p) {
        Some(MType::Array(_, n)) => {
            lemma_number(n, st.regs);
        },
        _ => {},
    }
    if let Place::Deref(b) = p {
        let l = b->Local_0;
        assert(*b == Place::Local(l));
        assert(place_type(env, *b) == of_local(env.types, l));
        assert(crate::mir::lower::root(*b) == l);
    }
}

/// A copy of a pointer to a slice is known to have the length of the slice.
pub proof fn copies_carry_lengths(env: Env, s: State, d: u32, p: u32, cast: bool)
    requires
        s.lengths.contains_key(p),
    ensures
        ({
            let op = MOperand::Copy(Place::Local(p));
            let rv = if cast {
                MRvalue::Cast(op)
            } else {
                MRvalue::Use(op)
            };
            let s1 = statement(env, s, MStmt::Assign(Place::Local(d), rv));
            &&& s1.lengths.contains_key(d)
            &&& s1.lengths[d] == s.lengths[p]
            &&& forall|l: u32| l != d && #[trigger] s.lengths.contains_key(l)
                ==> s1.lengths.contains_key(l) && s1.lengths[l] == s.lengths[l]
        }),
{
}

// ---- calls ----

/// An operand whose value needs no memory: a constant or a local.
pub open spec fn direct(op: MOperand) -> bool {
    match op {
        MOperand::Const(_) => true,
        MOperand::Copy(p) => p is Local,
        MOperand::Move(p) => p is Local,
    }
}

proof fn lemma_arguments(env: Env, s: State, args: Seq<MOperand>, st: Situation)
    ensures
        operand_values(env, s, args).1.len() == args.len(),
        forall|k: int|
            0 <= k < args.len() && direct(args[k]) ==> read(
                st.regs,
                #[trigger] operand_values(env, s, args).1[k],
            ) == meant(env, st, args[k]),
    decreases args.len(),
{
    if args.len() > 0 {
        let front = args.drop_last();
        lemma_arguments(env, s, front, st);
        let (s1, vs) = operand_values(env, s, front);
        let all = operand_values(env, s, args).1;
        if let MOperand::Const(c) = args.last() {
            constants_keep_their_values(env, s1, c, st.regs);
        }
        assert forall|k: int| 0 <= k < args.len() && direct(args[k]) implies read(
            st.regs,
            #[trigger] all[k],
        ) == meant(env, st, args[k]) by {
            if k < front.len() {
                assert(front[k] == args[k]);
                assert(all[k] == vs[k]);
            }
        }
    }
}

/// A call passes the values of its arguments in their order, to the function that its name
/// stands for where there is one and to the named symbol otherwise, or through the local that
/// holds the function. Its result goes into the local that it is assigned to.
pub proof fn calls_keep_their_arguments(
    env: Env,
    s: State,
    dst: Place,
    callee: CalleeSpec,
    args: Vec<MOperand>,
    target: Option<usize>,
    unwind: Option<usize>,
    st: Situation,
)
    ensures
        ({
            let s0 = operand_values(env, s, args@).0;
            let s1 = terminator(env, s, MTerm::Call { dst, callee, args, target, unwind }).0;
            &&& s1.out.len() == s0.out.len() + 1
            &&& s1.out.drop_last() == s0.out
            &&& s1.out.last() matches InstView::Call { dst: d, callee: f, args: ops, .. } && (dst
                matches Place::Local(x) ==> d == Some(RegId(x))) && (!(dst is Local) ==> d is None)
                && ops.len() == args@.len() && (forall|k: int|
                0 <= k < args@.len() && direct(args@[k]) ==> read(st.regs, #[trigger] ops[k])
                    == meant(env, st, args@[k])) && match callee {
                CalleeSpec::Named(n) => if n@.len() > 0 && env.func_ids.contains_key(n@) {
                    f == CalleeView::Direct(crate::ir::FuncId(env.func_ids[n@]))
                } else {
                    f == CalleeView::Symbol(n@)
                },
                CalleeSpec::Indirect(l) => f == CalleeView::Indirect(Operand::Reg(RegId(l))),
            }
        }),
{
    lemma_arguments(env, s, args@, st);
    let s0 = operand_values(env, s, args@).0;
    let s1 = terminator(env, s, MTerm::Call { dst, callee, args, target, unwind }).0;
    assert(s1.out.drop_last() =~= s0.out);
}

} // verus!
