//! What the uses of pointers in a function tell of them.

use crate::ir::{field_offset, field_type, size_of_type, Type};
use crate::llvm::ast::{LBlock, LFunc, LInst, LType, LValue};
use crate::llvm::blocks::{const_index, constant_index};
use crate::llvm::debuginfo::{natural_align, size_align, DebugInfo, DiView};
use crate::llvm::lower::{has_chars, low_half, lower_type, type_of};
use crate::names::{entry, lemma_table_push, lookup, table};
use vstd::prelude::*;

verus! {

/// The instructions of blocks, in order.
pub open spec fn flat(blocks: Seq<LBlock>) -> Seq<LInst>
    decreases blocks.len(),
{
    if blocks.len() == 0 {
        Seq::empty()
    } else {
        flat(blocks.drop_last()) + blocks.last().insts@
    }
}

/// What references refer to.
pub open spec fn values(s: Seq<&LInst>) -> Seq<LInst> {
    Seq::new(s.len(), |i: int| *s[i])
}

/// References to the instructions of a function, in order.
pub fn all_insts(f: &LFunc) -> (r: Vec<&LInst>)
    ensures
        values(r@) == flat(f.blocks@),
{
    let mut out: Vec<&LInst> = Vec::new();
    let mut i: usize = 0;
    assert(f.blocks@.take(0) =~= Seq::<LBlock>::empty());
    assert(values(out@) =~= Seq::<LInst>::empty());
    while i < f.blocks.len()
        invariant
            i <= f.blocks@.len(),
            values(out@) == flat(f.blocks@.take(i as int)),
        decreases f.blocks@.len() - i,
    {
        let insts = &f.blocks[i].insts;
        let ghost before = values(out@);
        let mut k: usize = 0;
        assert(before + insts@.take(0) =~= before);
        while k < insts.len()
            invariant
                k <= insts@.len(),
                values(out@) == before + insts@.take(k as int),
            decreases insts@.len() - k,
        {
            let ghost prev = out@;
            out.push(&insts[k]);
            assert(values(out@) =~= values(prev).push(insts@[k as int]));
            assert(values(out@) =~= before + insts@.take(k + 1));
            k += 1;
        }
        assert(insts@.take(insts@.len() as int) =~= insts@);
        i += 1;
        assert(f.blocks@.take(i as int).drop_last() =~= f.blocks@.take(i - 1));
    }
    assert(f.blocks@.take(f.blocks@.len() as int) =~= f.blocks@);
    out
}

// ---- slices ----

/// The instruction reads or writes through the named value.
pub open spec fn accesses(inst: LInst, name: Seq<char>) -> bool {
    match inst {
        LInst::Load { ptr: LValue::Local(p), .. } => p@ == name,
        LInst::Store { ptr: LValue::Local(p), .. } => p@ == name,
        _ => false,
    }
}

/// Some instruction reads or writes through the named value.
pub open spec fn dereferenced(insts: Seq<LInst>, name: Seq<char>) -> bool {
    exists|i: int| 0 <= i < insts.len() && accesses(#[trigger] insts[i], name)
}

/// The instruction offsets the named pointer by the named index.
pub open spec fn offsets_by(inst: LInst, ptr: Seq<char>, index: Seq<char>) -> bool {
    inst matches LInst::Gep { base: LValue::Local(b), index: LValue::Local(i), .. } && b@ == ptr
        && i@ == index
}

/// Some instruction offsets the named pointer by the named index.
pub open spec fn offset_by(insts: Seq<LInst>, ptr: Seq<char>, index: Seq<char>) -> bool {
    exists|i: int| 0 <= i < insts.len() && offsets_by(#[trigger] insts[i], ptr, index)
}

/// What the instruction compares the named value with.
pub open spec fn compared_with(inst: LInst, name: Seq<char>) -> Option<Seq<char>> {
    match inst {
        LInst::Icmp { a: LValue::Local(x), b: LValue::Local(y), .. } => if x@ == name {
            Some(y@)
        } else if y@ == name {
            Some(x@)
        } else {
            None
        },
        _ => None,
    }
}

/// The instruction is an access at the candidate index: an offset of the pointer by it
/// whose result is read or written through.
pub open spec fn indexes(
    insts: Seq<LInst>,
    inst: LInst,
    ptr: Seq<char>,
    cand: Seq<char>,
) -> bool {
    offsets_by(inst, ptr, cand) && dereferenced(insts, inst->Gep_dst@)
}

/// The pointer is read or written at the candidate index.
pub open spec fn accessed_at(insts: Seq<LInst>, ptr: Seq<char>, cand: Seq<char>) -> bool {
    cand.len() > 0 && exists|i: int|
        0 <= i < insts.len() && indexes(insts, #[trigger] insts[i], ptr, cand)
}

/// The instruction compares the candidate with an index of the pointer.
pub open spec fn bounds_index(
    insts: Seq<LInst>,
    inst: LInst,
    ptr: Seq<char>,
    cand: Seq<char>,
) -> bool {
    match compared_with(inst, cand) {
        Some(other) => offset_by(insts, ptr, other),
        None => false,
    }
}

/// The candidate acts as a length of the pointer: it forms the end pointer, or an index of
/// the pointer is compared with it.
pub open spec fn is_length(insts: Seq<LInst>, ptr: Seq<char>, cand: Seq<char>) -> bool {
    cand.len() > 0 && (offset_by(insts, ptr, cand) || exists|i: int|
        0 <= i < insts.len() && bounds_index(insts, #[trigger] insts[i], ptr, cand))
}

/// The size of a type, if it fits.
pub open spec fn sized(t: Type) -> Option<u64> {
    if size_of_type(t) <= u64::MAX {
        Some(size_of_type(t) as u64)
    } else {
        None
    }
}

/// The element type of the first offset of the named pointer.
pub open spec fn first_elem(insts: Seq<LInst>, ptr: Seq<char>) -> Option<LType>
    decreases insts.len(),
{
    if insts.len() == 0 {
        None
    } else {
        match first_elem(insts.drop_last(), ptr) {
            Some(t) => Some(t),
            None => match insts.last() {
                LInst::Gep { base: LValue::Local(b), elem, .. } => if b@ == ptr {
                    Some(elem)
                } else {
                    None
                },
                _ => None,
            },
        }
    }
}

/// The size of the elements of the named pointer.
pub open spec fn elem_size_of(insts: Seq<LInst>, ptr: Seq<char>) -> Option<u64> {
    match first_elem(insts, ptr) {
        Some(t) => sized(type_of(t)),
        None => None,
    }
}

/// The length parameter and element size of the slice that starts at parameter `idx`: an
/// aligned pointer followed by an integer that acts as its length.
pub open spec fn slice_at(f: LFunc, idx: int) -> Option<(u32, u64)> {
    let insts = flat(f.blocks@);
    let p = f.params@[idx];
    if p.align is None || p.name@.len() == 0 || idx + 1 >= f.params@.len() {
        None
    } else {
        let len = f.params@[idx + 1];
        if !(len.ty is Int) || accessed_at(insts, p.name@, len.name@) || !is_length(
            insts,
            p.name@,
            len.name@,
        ) {
            None
        } else {
            match elem_size_of(insts, p.name@) {
                Some(n) => Some(((idx + 1) as u32, n)),
                None => None,
            }
        }
    }
}

/// Whether the named value is the address of a load or store.
pub fn is_dereferenced(f: &LFunc, name: &String) -> (r: bool)
    ensures
        r == dereferenced(flat(f.blocks@), name@),
{
    let insts = all_insts(f);
    let ghost all = flat(f.blocks@);
    let mut i: usize = 0;
    while i < insts.len()
        invariant
            i <= insts@.len(),
            all == flat(f.blocks@),
            values(insts@) == all,
            forall|k: int| 0 <= k < i ==> !accesses(#[trigger] all[k], name@),
        decreases insts@.len() - i,
    {
        assert(all[i as int] == *insts@[i as int]);
        let hit = match insts[i] {
            LInst::Load { ptr: LValue::Local(p), .. } => *p == *name,
            LInst::Store { ptr: LValue::Local(p), .. } => *p == *name,
            _ => false,
        };
        if hit {
            return true;
        }
        i += 1;
    }
    false
}

fn is_offset_by(insts: &Vec<&LInst>, ptr: &String, index: &String) -> (r: bool)
    ensures
        r == offset_by(values(insts@), ptr@, index@),
{
    let ghost all = values(insts@);
    let mut i: usize = 0;
    while i < insts.len()
        invariant
            i <= insts@.len(),
            values(insts@) == all,
            forall|k: int| 0 <= k < i ==> !offsets_by(#[trigger] all[k], ptr@, index@),
        decreases insts@.len() - i,
    {
        assert(all[i as int] == *insts@[i as int]);
        let hit = match insts[i] {
            LInst::Gep { base: LValue::Local(b), index: LValue::Local(x), .. } => *b == *ptr && *x
                == *index,
            _ => false,
        };
        if hit {
            return true;
        }
        i += 1;
    }
    false
}

/// Whether the result of an offset of the pointer by the candidate is read or written
/// through.
pub fn pointer_indexed_and_dereferenced_by(f: &LFunc, ptr: &String, cand: &String) -> (r: bool)
    ensures
        r == accessed_at(flat(f.blocks@), ptr@, cand@),
{
    if !has_chars(cand) {
        return false;
    }
    let insts = all_insts(f);
    let ghost all = flat(f.blocks@);
    let mut i: usize = 0;
    while i < insts.len()
        invariant
            i <= insts@.len(),
            cand@.len() > 0,
            all == flat(f.blocks@),
            values(insts@) == all,
            forall|k: int| 0 <= k < i ==> !indexes(all, #[trigger] all[k], ptr@, cand@),
        decreases insts@.len() - i,
    {
        assert(all[i as int] == *insts@[i as int]);
        let hit = match insts[i] {
            LInst::Gep { dst, base: LValue::Local(b), index: LValue::Local(x), .. } => *b == *ptr
                && *x == *cand && is_dereferenced(f, dst),
            _ => false,
        };
        if hit {
            return true;
        }
        i += 1;
    }
    false
}

fn other_side<'a>(inst: &'a LInst, name: &String) -> (r: Option<&'a String>)
    ensures
        match r {
            Some(s) => compared_with(*inst, name@) == Some(s@),
            None => compared_with(*inst, name@) is None,
        },
{
    match inst {
        LInst::Icmp { a: LValue::Local(x), b: LValue::Local(y), .. } => if *x == *name {
            Some(y)
        } else if *y == *name {
            Some(x)
        } else {
            None
        },
        _ => None,
    }
}

/// Whether the candidate acts as a length of the pointer.
pub fn used_as_length(f: &LFunc, ptr: &String, cand: &String) -> (r: bool)
    ensures
        r == is_length(flat(f.blocks@), ptr@, cand@),
{
    if !has_chars(cand) {
        return false;
    }
    let insts = all_insts(f);
    if is_offset_by(&insts, ptr, cand) {
        return true;
    }
    let ghost all = flat(f.blocks@);
    let mut i: usize = 0;
    while i < insts.len()
        invariant
            i <= insts@.len(),
            cand@.len() > 0,
            all == flat(f.blocks@),
            values(insts@) == all,
            forall|k: int| 0 <= k < i ==> !bounds_index(all, #[trigger] all[k], ptr@, cand@),
        decreases insts@.len() - i,
    {
        assert(all[i as int] == *insts@[i as int]);
        if let Some(other) = other_side(insts[i], cand) {
            if is_offset_by(&insts, ptr, other) {
                assert(bounds_index(all, all[i as int], ptr@, cand@));
                return true;
            }
        }
        i += 1;
    }
    false
}

proof fn lemma_first_elem(insts: Seq<LInst>, ptr: Seq<char>, k: int)
    requires
        0 <= k <= insts.len(),
        first_elem(insts.take(k), ptr) is Some,
    ensures
        first_elem(insts, ptr) == first_elem(insts.take(k), ptr),
    decreases insts.len(),
{
    if k == insts.len() {
        assert(insts.take(k) =~= insts);
    } else {
        assert(insts.drop_last().take(k) =~= insts.take(k));
        lemma_first_elem(insts.drop_last(), ptr, k);
    }
}

/// The size of the element type of the first offset of the pointer.
pub fn slice_elem_size(f: &LFunc, ptr: &String) -> (r: Option<u64>)
    ensures
        r == elem_size_of(flat(f.blocks@), ptr@),
{
    let insts = all_insts(f);
    let ghost all = flat(f.blocks@);
    let mut i: usize = 0;
    assert(all.take(0) =~= Seq::<LInst>::empty());
    while i < insts.len()
        invariant
            i <= insts@.len(),
            all == flat(f.blocks@),
            values(insts@) == all,
            first_elem(all.take(i as int), ptr@) is None,
        decreases insts@.len() - i,
    {
        assert(all[i as int] == *insts@[i as int]);
        assert(all.take(i + 1).drop_last() =~= all.take(i as int));
        assert(all.take(i + 1).last() == all[i as int]);
        if let LInst::Gep { base: LValue::Local(b), elem, .. } = insts[i] {
            if *b == *ptr {
                proof {
                    lemma_first_elem(all, ptr@, i + 1);
                }
                return lower_type(elem).size_bytes();
            }
        }
        i += 1;
    }
    assert(all.take(all.len() as int) =~= all);
    None
}

/// The length parameter and element size of the slice that starts at a parameter.
pub fn detect_slice(f: &LFunc, idx: usize) -> (r: Option<(u32, u64)>)
    requires
        idx < f.params@.len() <= u32::MAX,
    ensures
        r == slice_at(*f, idx as int),
{
    let p = &f.params[idx];
    if p.align.is_none() || !has_chars(&p.name) || idx + 1 >= f.params.len() {
        return None;
    }
    let len = &f.params[idx + 1];
    match len.ty {
        LType::Int(_) => {},
        _ => {
            return None;
        },
    }
    if pointer_indexed_and_dereferenced_by(f, &p.name, &len.name) {
        return None;
    }
    if !used_as_length(f, &p.name, &len.name) {
        return None;
    }
    match slice_elem_size(f, &p.name) {
        Some(n) => Some(((idx + 1) as u32, n)),
        None => None,
    }
}

// ---- constant offsets ----

/// Where a path of constant steps into a type leads: the offset and the type there.
pub open spec fn steps_into(ty: Type, path: Seq<LValue>) -> Option<(u64, Type)>
    decreases path.len(),
{
    if path.len() == 0 {
        Some((0, ty))
    } else {
        match (steps_into(ty, path.drop_last()), constant_index(path.last())) {
            (Some((off, t)), Some(k)) => step_into(off, t, k),
            _ => None,
        }
    }
}

/// One constant step into a type at an offset.
pub open spec fn step_into(off: u64, t: Type, k: u64) -> Option<(u64, Type)> {
    match t {
        Type::Struct { fields, .. } => match (
            field_offset(t, low_half(k)),
            field_type(fields, k as nat),
        ) {
            (Some(o), Some(ft)) => if off + o <= u64::MAX {
                Some(((off + o) as u64, ft))
            } else {
                None
            },
            _ => None,
        },
        Type::Array { elem, .. } => if off + k * size_of_type(*elem) <= u64::MAX
            && size_of_type(*elem) <= u64::MAX {
            Some(((off + k * size_of_type(*elem)) as u64, *elem))
        } else {
            None
        },
        _ => None,
    }
}

/// The offset that a path of constant steps into an aggregate leads to.
pub open spec fn path_offset(agg: Type, path: Seq<LValue>) -> Option<u64> {
    match steps_into(agg, path) {
        Some((off, _)) => Some(off),
        None => None,
    }
}

fn const_step(off: u64, t: &Type, k: u64) -> (r: Option<(u64, Type)>)
    ensures
        r == step_into(off, *t, k),
{
    match t {
        Type::Struct { fields, .. } => {
            let o: u64 = match t.struct_field_offset((k % 0x1_0000_0000) as u32) {
                Some(o) => o,
                None => {
                    return None;
                },
            };
            match (off.checked_add(o), fields.get(k)) {
                (Some(sum), Some(ft)) => Some((sum, ft)),
                _ => None,
            }
        },
        Type::Array { elem, .. } => {
            let size: u64 = match elem.size_bytes() {
                Some(s) => s,
                None => {
                    return None;
                },
            };
            assert(0 <= k * size) by (nonlinear_arith);
            match k.checked_mul(size) {
                Some(x) => match off.checked_add(x) {
                    Some(sum) => Some((sum, elem.copy())),
                    None => None,
                },
                None => None,
            }
        },
        _ => None,
    }
}

proof fn lemma_steps_stop(ty: Type, path: Seq<LValue>, k: int)
    requires
        0 <= k <= path.len(),
        steps_into(ty, path.take(k)) is None,
    ensures
        steps_into(ty, path) is None,
    decreases path.len(),
{
    if k == path.len() {
        assert(path.take(k) =~= path);
    } else {
        assert(path.drop_last().take(k) =~= path.take(k));
        lemma_steps_stop(ty, path.drop_last(), k);
    }
}

/// The constant offset of a walk into an aggregate from the index at `start` on; none
/// where a step is not constant.
pub fn gepchain_const_offset(agg: &Type, path: &Vec<LValue>, start: usize) -> (r: Option<u64>)
    requires
        start <= path@.len(),
    ensures
        r == path_offset(*agg, path@.subrange(start as int, path@.len() as int)),
{
    let ghost rest = path@.subrange(start as int, path@.len() as int);
    let mut ty: Type = agg.copy();
    let mut off: u64 = 0;
    let mut i: usize = start;
    assert(rest.take(0) =~= Seq::<LValue>::empty());
    while i < path.len()
        invariant
            start <= i <= path@.len(),
            rest == path@.subrange(start as int, path@.len() as int),
            steps_into(*agg, rest.take(i - start)) == Some((off, ty)),
        decreases path@.len() - i,
    {
        assert(rest.take(i - start + 1).drop_last() =~= rest.take(i - start));
        assert(rest.take(i - start + 1).last() == path@[i as int]);
        let next = match const_index(&path[i]) {
            Some(k) => const_step(off, &ty, k),
            None => None,
        };
        match next {
            Some((o, t)) => {
                off = o;
                ty = t;
            },
            None => {
                proof {
                    lemma_steps_stop(*agg, rest, i - start + 1);
                }
                return None;
            },
        }
        i += 1;
    }
    assert(rest.take(rest.len() as int) =~= rest);
    Some(off)
}

// ---- sizes from typed offsets ----

/// The size and the name of the struct that an instruction shows a local to point to.
pub open spec fn shown_struct(inst: LInst) -> Option<(Seq<char>, u64, Option<String>)> {
    match inst {
        LInst::GepChain { agg_ty, base: LValue::Local(b), struct_name, .. } => match (
            type_of(agg_ty),
            sized(type_of(agg_ty)),
        ) {
            (Type::Struct { .. }, Some(n)) => if n > 0 {
                Some((b@, n, struct_name))
            } else {
                None
            },
            _ => None,
        },
        _ => None,
    }
}

/// The size and name of the struct that each local is first indexed as.
pub open spec fn pointee_sizes(insts: Seq<LInst>) -> Map<Seq<char>, (u64, Option<String>)>
    decreases insts.len(),
{
    if insts.len() == 0 {
        Map::empty()
    } else {
        let m = pointee_sizes(insts.drop_last());
        match shown_struct(insts.last()) {
            Some((b, n, name)) => if m.contains_key(b) {
                m
            } else {
                m.insert(b, (n, name))
            },
            None => m,
        }
    }
}

fn copy_name(s: &Option<String>) -> (r: Option<String>)
    ensures
        r == *s,
{
    match s {
        Some(x) => Some(x.clone()),
        None => None,
    }
}

/// The size and name of the struct that each local is first indexed as.
pub fn typed_gep_pointee_sizes(f: &LFunc) -> (r: Vec<(String, (u64, Option<String>))>)
    ensures
        table(r@) == pointee_sizes(flat(f.blocks@)),
{
    let insts = all_insts(f);
    let ghost all = flat(f.blocks@);
    let mut out: Vec<(String, (u64, Option<String>))> = Vec::new();
    let mut i: usize = 0;
    assert(all.take(0) =~= Seq::<LInst>::empty());
    while i < insts.len()
        invariant
            i <= insts@.len(),
            values(insts@) == all,
            table(out@) == pointee_sizes(all.take(i as int)),
        decreases insts@.len() - i,
    {
        assert(all[i as int] == *insts@[i as int]);
        assert(all.take(i + 1).drop_last() =~= all.take(i as int));
        assert(all.take(i + 1).last() == all[i as int]);
        if let LInst::GepChain { agg_ty, base: LValue::Local(b), struct_name, .. } = insts[i] {
            let ty = lower_type(agg_ty);
            if let Type::Struct { .. } = ty {
                if let Some(n) = ty.size_bytes() {
                    if n > 0 && lookup(&out, b).is_none() {
                        let e: (String, (u64, Option<String>)) = (
                            b.clone(),
                            (n, copy_name(struct_name)),
                        );
                        proof {
                            lemma_table_push(out@, e);
                        }
                        out.push(e);
                    }
                }
            }
        }
        i += 1;
    }
    assert(all.take(all.len() as int) =~= all);
    out
}

/// The alignment that a struct of this size and name is taken to have.
pub open spec fn struct_align(di: DiView, size: u64, name: Option<String>) -> u32 {
    match name {
        Some(n) => match di.named_align(n@) {
            Some(a) => a,
            None => natural_align(size),
        },
        None => natural_align(size),
    }
}

/// A pointer that was loaded from a field: the size and alignment of what it points to,
/// whether it may be written, and whether its validity is an assumption.
pub type LoadedPtr = (u64, u32, bool, bool);

/// The loaded pointers that are indexed as a struct.
pub open spec fn struct_loads(
    insts: Seq<LInst>,
    sizes: Map<Seq<char>, (u64, Option<String>)>,
    di: DiView,
) -> Map<Seq<char>, LoadedPtr>
    decreases insts.len(),
{
    if insts.len() == 0 {
        Map::empty()
    } else {
        let m = struct_loads(insts.drop_last(), sizes, di);
        match insts.last() {
            LInst::Load { dst, ty: LType::Ptr, .. } => match entry(sizes, dst@) {
                Some((n, name)) => m.insert(dst@, (n, struct_align(di, n, name), true, true)),
                None => m,
            },
            _ => m,
        }
    }
}

/// The loaded pointers that are indexed as a struct, with the struct's size and alignment.
pub fn typed_gep_field_loads(f: &LFunc, di: &DebugInfo) -> (r: Vec<(String, LoadedPtr)>)
    ensures
        table(r@) == struct_loads(flat(f.blocks@), pointee_sizes(flat(f.blocks@)), di@),
{
    let sizes = typed_gep_pointee_sizes(f);
    let insts = all_insts(f);
    let ghost all = flat(f.blocks@);
    let mut out: Vec<(String, LoadedPtr)> = Vec::new();
    let mut i: usize = 0;
    assert(all.take(0) =~= Seq::<LInst>::empty());
    while i < insts.len()
        invariant
            i <= insts@.len(),
            values(insts@) == all,
            table(sizes@) == pointee_sizes(all),
            table(out@) == struct_loads(all.take(i as int), pointee_sizes(all), di@),
        decreases insts@.len() - i,
    {
        assert(all[i as int] == *insts@[i as int]);
        assert(all.take(i + 1).drop_last() =~= all.take(i as int));
        assert(all.take(i + 1).last() == all[i as int]);
        if let LInst::Load { dst, ty: LType::Ptr, .. } = insts[i] {
            if let Some((n, name)) = lookup(&sizes, dst) {
                let known: Option<u32> = match name {
                    Some(s) => di.composite_align_by_llvm_name(s.as_str()),
                    None => None,
                };
                let a: u32 = match known {
                    Some(a) => a,
                    None => size_align(*n),
                };
                let e: (String, LoadedPtr) = (dst.clone(), (*n, a, true, true));
                proof {
                    lemma_table_push(out@, e);
                }
                out.push(e);
            }
        }
        i += 1;
    }
    assert(all.take(all.len() as int) =~= all);
    out
}

// ---- alignments from accesses ----

/// A power of two.
pub open spec fn power_of_two(n: nat) -> bool
    decreases n,
{
    n == 1 || (n > 1 && n % 2 == 0 && power_of_two(n / 2))
}

fn is_power_of_two(n: u32) -> (r: bool)
    ensures
        r == power_of_two(n as nat),
{
    let mut x: u32 = n;
    while x > 1 && x % 2 == 0
        invariant
            power_of_two(x as nat) == power_of_two(n as nat),
        decreases x,
    {
        x = x / 2;
    }
    x == 1
}

/// The base and the constant offset of a pointer that an instruction computes.
pub open spec fn const_offset(inst: LInst) -> Option<(Seq<char>, (String, u64))> {
    match inst {
        LInst::GepChain { dst, agg_ty, base: LValue::Local(b), indices, .. } => match path_offset(
            type_of(agg_ty),
            indices@,
        ) {
            Some(k) => Some((dst@, (b, k))),
            None => None,
        },
        LInst::Gep { dst, elem, base: LValue::Local(b), index } => match (
            constant_index(index),
            sized(type_of(elem)),
        ) {
            (Some(i), Some(stride)) => if i * stride <= u64::MAX {
                Some((dst@, (b, (i * stride) as u64)))
            } else {
                None
            },
            _ => None,
        },
        _ => None,
    }
}

/// The base and constant offset of each pointer.
pub open spec fn const_offsets(insts: Seq<LInst>) -> Map<Seq<char>, (String, u64)>
    decreases insts.len(),
{
    if insts.len() == 0 {
        Map::empty()
    } else {
        let m = const_offsets(insts.drop_last());
        match const_offset(insts.last()) {
            Some((dst, e)) => m.insert(dst, e),
            None => m,
        }
    }
}

/// The pointer and alignment of an access.
pub open spec fn access(inst: LInst) -> Option<(Seq<char>, u32)> {
    match inst {
        LInst::Load { ptr: LValue::Local(p), align, .. } => Some((p@, align)),
        LInst::Store { ptr: LValue::Local(p), align, .. } => Some((p@, align)),
        _ => None,
    }
}

/// The base whose alignment an access at `ptr` shows, with the offset from it.
pub open spec fn access_base(offs: Map<Seq<char>, (String, u64)>, ptr: Seq<char>) -> (
    Seq<char>,
    u64,
) {
    match entry(offs, ptr) {
        Some((b, k)) => (b@, k),
        None => (ptr, 0),
    }
}

/// The largest alignment that the accesses show of each base: an access at an offset
/// shows its alignment of the base where the offset is a multiple of it.
pub open spec fn base_aligns(insts: Seq<LInst>, offs: Map<Seq<char>, (String, u64)>) -> Map<
    Seq<char>,
    u32,
>
    decreases insts.len(),
{
    if insts.len() == 0 {
        Map::empty()
    } else {
        let m = base_aligns(insts.drop_last(), offs);
        match access(insts.last()) {
            Some((ptr, align)) => {
                let (base, k) = access_base(offs, ptr);
                if power_of_two(align as nat) && k % (align as u64) == 0 {
                    match entry(m, base) {
                        Some(a) => if align > a {
                            m.insert(base, align)
                        } else {
                            m
                        },
                        None => m.insert(base, align),
                    }
                } else {
                    m
                }
            },
            None => m,
        }
    }
}

fn offset_of(inst: &LInst) -> (r: Option<(String, (String, u64))>)
    ensures
        match r {
            Some((d, e)) => const_offset(*inst) == Some((d@, e)),
            None => const_offset(*inst) is None,
        },
{
    match inst {
        LInst::GepChain { dst, agg_ty, base: LValue::Local(b), indices, .. } => {
            assert(indices@.subrange(0, indices@.len() as int) =~= indices@);
            match gepchain_const_offset(&lower_type(agg_ty), indices, 0) {
                Some(k) => Some((dst.clone(), (b.clone(), k))),
                None => None,
            }
        },
        LInst::Gep { dst, elem, base: LValue::Local(b), index } => match const_index(index) {
            Some(i) => match lower_type(elem).size_bytes() {
                Some(stride) => match i.checked_mul(stride) {
                    Some(k) => Some((dst.clone(), (b.clone(), k))),
                    None => None,
                },
                None => None,
            },
            None => None,
        },
        _ => None,
    }
}

fn offsets(insts: &Vec<&LInst>) -> (r: Vec<(String, (String, u64))>)
    ensures
        table(r@) == const_offsets(values(insts@)),
{
    let ghost all = values(insts@);
    let mut out: Vec<(String, (String, u64))> = Vec::new();
    let mut i: usize = 0;
    assert(all.take(0) =~= Seq::<LInst>::empty());
    while i < insts.len()
        invariant
            i <= insts@.len(),
            values(insts@) == all,
            table(out@) == const_offsets(all.take(i as int)),
        decreases insts@.len() - i,
    {
        assert(all[i as int] == *insts@[i as int]);
        assert(all.take(i + 1).drop_last() =~= all.take(i as int));
        assert(all.take(i + 1).last() == all[i as int]);
        if let Some(e) = offset_of(insts[i]) {
            proof {
                lemma_table_push(out@, e);
            }
            out.push(e);
        }
        i += 1;
    }
    assert(all.take(all.len() as int) =~= all);
    out
}

/// The alignment that the accesses of a function show of each local pointer.
pub fn asserted_base_aligns(f: &LFunc) -> (r: Vec<(String, u32)>)
    ensures
        table(r@) == base_aligns(flat(f.blocks@), const_offsets(flat(f.blocks@))),
{
    let insts = all_insts(f);
    let offs = offsets(&insts);
    let ghost all = flat(f.blocks@);
    let mut out: Vec<(String, u32)> = Vec::new();
    let mut i: usize = 0;
    assert(all.take(0) =~= Seq::<LInst>::empty());
    while i < insts.len()
        invariant
            i <= insts@.len(),
            values(insts@) == all,
            table(offs@) == const_offsets(all),
            table(out@) == base_aligns(all.take(i as int), const_offsets(all)),
        decreases insts@.len() - i,
    {
        assert(all[i as int] == *insts@[i as int]);
        assert(all.take(i + 1).drop_last() =~= all.take(i as int));
        assert(all.take(i + 1).last() == all[i as int]);
        let found: Option<(&String, u32)> = match insts[i] {
            LInst::Load { ptr: LValue::Local(p), align, .. } => Some((p, *align)),
            LInst::Store { ptr: LValue::Local(p), align, .. } => Some((p, *align)),
            _ => None,
        };
        if let Some((p, align)) = found {
            if is_power_of_two(align) {
                let (base, k): (&String, u64) = match lookup(&offs, p) {
                    Some((b, k)) => (b, *k),
                    None => (p, 0),
                };
                assert(align > 0);
                if k % (align as u64) == 0 {
                    let better = match lookup(&out, base) {
                        Some(a) => align > *a,
                        None => true,
                    };
                    if better {
                        let e: (String, u32) = (base.clone(), align);
                        proof {
                            lemma_table_push(out@, e);
                        }
                        out.push(e);
                    }
                }
            }
        }
        i += 1;
    }
    assert(all.take(all.len() as int) =~= all);
    out
}

} // verus!
