//! What debug information tells of the pointers that a function loads.

use crate::llvm::ast::{LFunc, LInst, LParam, LType, LValue};
use crate::llvm::debuginfo::{DebugInfo, DiView};
use crate::llvm::lower::{has_chars, lower_type, type_of};
use crate::llvm::slices::{
    all_insts, flat, gepchain_const_offset, path_offset, values, LoadedPtr,
};
use crate::names::{entry, lemma_table_push, lookup, table};
use vstd::prelude::*;

verus! {

/// What is known after some instructions.
pub struct Known {
    /// The struct that each local points to.
    pub structs: Map<Seq<char>, u32>,
    /// The local that was last stored into each slot.
    pub spills: Map<Seq<char>, String>,
    /// The struct and the offset of the field that each local points to.
    pub fields: Map<Seq<char>, (u32, u64)>,
    /// The loaded pointers.
    pub loads: Map<Seq<char>, LoadedPtr>,
}

/// The tables in which knowledge is kept.
pub struct Tables {
    pub structs: Vec<(String, u32)>,
    pub spills: Vec<(String, String)>,
    pub fields: Vec<(String, (u32, u64))>,
    pub loads: Vec<(String, LoadedPtr)>,
}

impl View for Tables {
    type V = Known;

    open spec fn view(&self) -> Known {
        Known {
            structs: table(self.structs@),
            spills: table(self.spills@),
            fields: table(self.fields@),
            loads: table(self.loads@),
        }
    }
}

/// The structs that parameters point to; of valid references alone, or of any pointers.
pub open spec fn seeds(params: Seq<LParam>, sp: u32, di: DiView, any: bool) -> Map<Seq<char>, u32>
    decreases params.len(),
{
    if params.len() == 0 {
        Map::empty()
    } else {
        let m = seeds(params.drop_last(), sp, di, any);
        let p = params.last();
        let arg = params.len() as u32;
        let target = if any {
            di.param_any(sp, arg)
        } else {
            di.param_target(sp, arg)
        };
        match target {
            Some(s) => if p.name@.len() > 0 {
                m.insert(p.name@, s)
            } else {
                m
            },
            None => m,
        }
    }
}

/// What is known at the start of a function.
pub open spec fn known_at_start(f: LFunc, sp: u32, di: DiView, any: bool) -> Known {
    Known {
        structs: seeds(f.params@, sp, di, any),
        spills: Map::empty(),
        fields: Map::empty(),
        loads: Map::empty(),
    }
}

/// After a reload of a spilled pointer, it points to the same struct.
pub open spec fn reloaded(k: Known, dst: Seq<char>, slot: Seq<char>) -> Known {
    match entry(k.spills, slot) {
        Some(src) => match entry(k.structs, src@) {
            Some(s) => Known { structs: k.structs.insert(dst, s), ..k },
            None => k,
        },
        None => k,
    }
}

/// An offset by a constant number of bytes.
pub open spec fn byte_step(inst: LInst) -> Option<(Seq<char>, Seq<char>, u64)> {
    match inst {
        LInst::Gep {
            dst,
            elem: LType::Int(8),
            base: LValue::Local(b),
            index: LValue::Int(off),
        } => if off >= 0 {
            Some((dst@, b@, (off as int % 0x1_0000_0000_0000_0000) as u64))
        } else {
            None
        },
        _ => None,
    }
}

/// After an offset by a constant number of bytes from a known struct.
pub open spec fn stepped(k: Known, inst: LInst) -> Known {
    match byte_step(inst) {
        Some((dst, b, off)) => match entry(k.structs, b) {
            Some(s) => Known { fields: k.fields.insert(dst, (s, off)), ..k },
            None => k,
        },
        None => k,
    }
}

/// After a store of a local into a slot.
pub open spec fn spilled(k: Known, inst: LInst) -> Known {
    match inst {
        LInst::Store { val: LValue::Local(src), ptr: LValue::Local(slot), .. } => Known {
            spills: k.spills.insert(slot@, src),
            ..k
        },
        _ => k,
    }
}

/// After one instruction, with only references taken into account.
pub open spec fn reference_step(k: Known, inst: LInst, di: DiView) -> Known {
    match inst {
        LInst::Store { .. } => spilled(k, inst),
        LInst::Load { dst, ptr: LValue::Local(slot), .. } => {
            let k2 = reloaded(k, dst@, slot@);
            match entry(k2.fields, slot@) {
                Some((s, off)) => match di.member_contract(s, off) {
                    Some(c) => Known {
                        loads: k2.loads.insert(dst@, (c.size, c.align, c.writable, false)),
                        ..k2
                    },
                    None => k2,
                },
                None => k2,
            }
        },
        _ => stepped(k, inst),
    }
}

/// The field that a load reads: a computed one, or the first field for a pointer read
/// through a struct pointer itself.
pub open spec fn field_read(k: Known, slot: Seq<char>, pointer: bool) -> Option<(u32, u64)> {
    match entry(k.fields, slot) {
        Some(x) => Some(x),
        None => match entry(k.structs, slot) {
            Some(s) => if pointer {
                Some((s, 0))
            } else {
                None
            },
            None => None,
        },
    }
}

/// After a load of a field: a valid reference is recorded as such, a raw pointer as an
/// assumption; the struct that the member points to is known of the result.
pub open spec fn field_loaded(k: Known, dst: Seq<char>, s: u32, off: u64, di: DiView) -> Known {
    let loads = match di.member_contract(s, off) {
        Some(c) => k.loads.insert(dst, (c.size, c.align, c.writable, false)),
        None => match di.member_raw(s, off) {
            Some((size, align)) => k.loads.insert(dst, (size, align, true, true)),
            None => k.loads,
        },
    };
    let structs = match di.member_target(s, off) {
        Some(t) => k.structs.insert(dst, t),
        None => k.structs,
    };
    Known { loads, structs, ..k }
}

/// After one instruction, with any pointers and typed offsets taken into account.
pub open spec fn pointer_step(k: Known, inst: LInst, di: DiView) -> Known {
    match inst {
        LInst::Store { .. } => spilled(k, inst),
        LInst::Load { dst, ty, ptr: LValue::Local(slot), .. } => {
            let k2 = reloaded(k, dst@, slot@);
            match field_read(k2, slot@, ty is Ptr) {
                Some((s, off)) => field_loaded(k2, dst@, s, off, di),
                None => k2,
            }
        },
        LInst::GepChain { dst, agg_ty, base: LValue::Local(b), indices, struct_name } => {
            let k2 = named_base(k, b@, struct_name, di);
            match (
                entry(k2.structs, b@),
                path_offset(type_of(agg_ty), indices@.subrange(1, indices@.len() as int)),
            ) {
                (Some(s), Some(off)) => if indices@.len() > 0 && indices@[0] == LValue::Int(0) {
                    Known { fields: k2.fields.insert(dst@, (s, off)), ..k2 }
                } else {
                    k2
                },
                _ => k2,
            }
        },
        _ => stepped(k, inst),
    }
}

/// A typed offset shows what its base points to, where that is not known yet.
pub open spec fn named_base(k: Known, base: Seq<char>, name: Option<String>, di: DiView) -> Known {
    match name {
        Some(n) => match di.named(n@) {
            Some(s) => if k.structs.contains_key(base) {
                k
            } else {
                Known { structs: k.structs.insert(base, s), ..k }
            },
            None => k,
        },
        None => k,
    }
}

/// After the instructions.
pub open spec fn known_after(k: Known, insts: Seq<LInst>, di: DiView, any: bool) -> Known
    decreases insts.len(),
{
    if insts.len() == 0 {
        k
    } else {
        let before = known_after(k, insts.drop_last(), di, any);
        if any {
            pointer_step(before, insts.last(), di)
        } else {
            reference_step(before, insts.last(), di)
        }
    }
}

/// The loaded pointers of a function that debug information tells of.
pub open spec fn field_loads_of(f: LFunc, di: DiView, any: bool) -> Map<Seq<char>, LoadedPtr> {
    match f.dbg {
        Some(sp) => known_after(known_at_start(f, sp, di, any), flat(f.blocks@), di, any).loads,
        None => Map::empty(),
    }
}

impl Tables {
    fn put_struct(&mut self, name: &String, s: u32)
        ensures
            final(self)@ == (Known { structs: old(self)@.structs.insert(name@, s), ..old(self)@ }),
    {
        let e: (String, u32) = (name.clone(), s);
        proof {
            lemma_table_push(self.structs@, e);
        }
        self.structs.push(e);
    }

    fn put_field(&mut self, name: &String, x: (u32, u64))
        ensures
            final(self)@ == (Known { fields: old(self)@.fields.insert(name@, x), ..old(self)@ }),
    {
        let e: (String, (u32, u64)) = (name.clone(), x);
        proof {
            lemma_table_push(self.fields@, e);
        }
        self.fields.push(e);
    }

    fn put_load(&mut self, name: &String, x: LoadedPtr)
        ensures
            final(self)@ == (Known { loads: old(self)@.loads.insert(name@, x), ..old(self)@ }),
    {
        let e: (String, LoadedPtr) = (name.clone(), x);
        proof {
            lemma_table_push(self.loads@, e);
        }
        self.loads.push(e);
    }

    fn spill(&mut self, inst: &LInst)
        ensures
            final(self)@ == spilled(old(self)@, *inst),
    {
        if let LInst::Store { val: LValue::Local(src), ptr: LValue::Local(slot), .. } = inst {
            let e: (String, String) = (slot.clone(), src.clone());
            proof {
                lemma_table_push(self.spills@, e);
            }
            self.spills.push(e);
        }
    }

    fn reload(&mut self, dst: &String, slot: &String)
        ensures
            final(self)@ == reloaded(old(self)@, dst@, slot@),
    {
        let found: Option<u32> = match lookup(&self.spills, slot) {
            Some(src) => match lookup(&self.structs, src) {
                Some(s) => Some(*s),
                None => None,
            },
            None => None,
        };
        if let Some(s) = found {
            self.put_struct(dst, s);
        }
    }

    fn byte_offset(&mut self, inst: &LInst)
        ensures
            final(self)@ == stepped(old(self)@, *inst),
    {
        if let LInst::Gep {
            dst,
            elem: LType::Int(8),
            base: LValue::Local(b),
            index: LValue::Int(off),
        } = inst {
            if *off >= 0 {
                let o: u64 = (*off % 0x1_0000_0000_0000_0000) as u64;
                let found: Option<u32> = match lookup(&self.structs, b) {
                    Some(s) => Some(*s),
                    None => None,
                };
                if let Some(s) = found {
                    self.put_field(dst, (s, o));
                }
            }
        }
    }

    fn reference(&mut self, inst: &LInst, di: &DebugInfo)
        ensures
            final(self)@ == reference_step(old(self)@, *inst, di@),
    {
        match inst {
            LInst::Store { .. } => {
                self.spill(inst);
            },
            LInst::Load { dst, ptr: LValue::Local(slot), .. } => {
                self.reload(dst, slot);
                let field: Option<(u32, u64)> = match lookup(&self.fields, slot) {
                    Some(x) => Some((x.0, x.1)),
                    None => None,
                };
                if let Some((s, off)) = field {
                    if let Some(c) = di.member_ref(s, off) {
                        self.put_load(dst, (c.size, c.align, c.writable, false));
                    }
                }
            },
            _ => {
                self.byte_offset(inst);
            },
        }
    }

    fn load_field(&mut self, dst: &String, s: u32, off: u64, di: &DebugInfo)
        ensures
            final(self)@ == field_loaded(old(self)@, dst@, s, off, di@),
    {
        match di.member_ref(s, off) {
            Some(c) => {
                self.put_load(dst, (c.size, c.align, c.writable, false));
            },
            None => {
                if let Some((size, align)) = di.member_raw_ptr(s, off) {
                    self.put_load(dst, (size, align, true, true));
                }
            },
        }
        if let Some(t) = di.member_pointee(s, off) {
            self.put_struct(dst, t);
        }
    }

    fn name_base(&mut self, base: &String, name: &Option<String>, di: &DebugInfo)
        ensures
            final(self)@ == named_base(old(self)@, base@, *name, di@),
    {
        if let Some(n) = name {
            if let Some(s) = di.composite_by_llvm_name(n.as_str()) {
                if lookup(&self.structs, base).is_none() {
                    self.put_struct(base, s);
                }
            }
        }
    }

    fn pointer(&mut self, inst: &LInst, di: &DebugInfo)
        ensures
            final(self)@ == pointer_step(old(self)@, *inst, di@),
    {
        match inst {
            LInst::Store { .. } => {
                self.spill(inst);
            },
            LInst::Load { dst, ty, ptr: LValue::Local(slot), .. } => {
                self.reload(dst, slot);
                let mut field: Option<(u32, u64)> = match lookup(&self.fields, slot) {
                    Some(x) => Some((x.0, x.1)),
                    None => None,
                };
                if field.is_none() {
                    if let LType::Ptr = ty {
                        if let Some(s) = lookup(&self.structs, slot) {
                            field = Some((*s, 0));
                        }
                    }
                }
                if let Some((s, off)) = field {
                    self.load_field(dst, s, off, di);
                }
            },
            LInst::GepChain { dst, agg_ty, base: LValue::Local(b), indices, struct_name } => {
                self.name_base(b, struct_name, di);
                let found: Option<u32> = match lookup(&self.structs, b) {
                    Some(s) => Some(*s),
                    None => None,
                };
                if let Some(s) = found {
                    if indices.len() > 0 {
                        if let LValue::Int(0) = indices[0] {
                            if let Some(off) = gepchain_const_offset(
                                &lower_type(agg_ty),
                                indices,
                                1,
                            ) {
                                self.put_field(dst, (s, off));
                            }
                        }
                    }
                }
            },
            _ => {
                self.byte_offset(inst);
            },
        }
    }
}

fn seed(f: &LFunc, sp: u32, di: &DebugInfo, any: bool) -> (r: Vec<(String, u32)>)
    requires
        f.params@.len() <= u32::MAX,
    ensures
        table(r@) == seeds(f.params@, sp, di@, any),
{
    let mut out: Vec<(String, u32)> = Vec::new();
    let mut i: usize = 0;
    assert(f.params@.take(0) =~= Seq::<LParam>::empty());
    while i < f.params.len()
        invariant
            i <= f.params@.len() <= u32::MAX,
            table(out@) == seeds(f.params@.take(i as int), sp, di@, any),
        decreases f.params@.len() - i,
    {
        assert(f.params@.take(i + 1).drop_last() =~= f.params@.take(i as int));
        assert(f.params@.take(i + 1).last() == f.params@[i as int]);
        let arg: u32 = (i + 1) as u32;
        let target: Option<u32> = if any {
            di.param_pointee_any(sp, arg)
        } else {
            di.param_pointee(sp, arg)
        };
        if has_chars(&f.params[i].name) {
            if let Some(s) = target {
                let e: (String, u32) = (f.params[i].name.clone(), s);
                proof {
                    lemma_table_push(out@, e);
                }
                out.push(e);
            }
        }
        i += 1;
    }
    assert(f.params@.take(f.params@.len() as int) =~= f.params@);
    out
}

fn field_loads(f: &LFunc, di: &DebugInfo, any: bool) -> (r: Vec<(String, LoadedPtr)>)
    requires
        f.params@.len() <= u32::MAX,
    ensures
        table(r@) == field_loads_of(*f, di@, any),
{
    let sp: u32 = match f.dbg {
        Some(sp) => sp,
        None => {
            return Vec::new();
        },
    };
    let mut t = Tables {
        structs: seed(f, sp, di, any),
        spills: Vec::new(),
        fields: Vec::new(),
        loads: Vec::new(),
    };
    let insts = all_insts(f);
    let ghost all = flat(f.blocks@);
    let ghost start = known_at_start(*f, sp, di@, any);
    let mut i: usize = 0;
    assert(all.take(0) =~= Seq::<LInst>::empty());
    while i < insts.len()
        invariant
            i <= insts@.len(),
            values(insts@) == all,
            t@ == known_after(start, all.take(i as int), di@, any),
        decreases insts@.len() - i,
    {
        assert(all[i as int] == *insts@[i as int]);
        assert(all.take(i + 1).drop_last() =~= all.take(i as int));
        assert(all.take(i + 1).last() == all[i as int]);
        if any {
            t.pointer(insts[i], di);
        } else {
            t.reference(insts[i], di);
        }
        i += 1;
    }
    assert(all.take(all.len() as int) =~= all);
    t.loads
}

/// The loaded pointers of a function that read a pointer or reference member of a struct,
/// followed through spills, chains of fields and typed offsets.
pub fn dwarf_field_loads(f: &LFunc, di: &DebugInfo) -> (r: Vec<(String, LoadedPtr)>)
    requires
        f.params@.len() <= u32::MAX,
    ensures
        table(r@) == field_loads_of(*f, di@, true),
{
    field_loads(f, di, true)
}

/// The loaded pointers of a function that read a reference member of a struct to which a
/// parameter refers.
pub fn reference_field_loads(f: &LFunc, di: &DebugInfo) -> (r: Vec<(String, LoadedPtr)>)
    requires
        f.params@.len() <= u32::MAX,
    ensures
        table(r@) == field_loads_of(*f, di@, false),
{
    field_loads(f, di, false)
}

proof fn lemma_references_are_owed(k: Known, insts: Seq<LInst>, di: DiView)
    requires
        forall|n: Seq<char>| #[trigger] k.loads.contains_key(n) ==> !(k.loads[n]).3,
    ensures
        ({
            let loads = known_after(k, insts, di, false).loads;
            forall|n: Seq<char>| #[trigger] loads.contains_key(n) ==> !(loads[n]).3
        }),
    decreases insts.len(),
{
    if insts.len() > 0 {
        lemma_references_are_owed(k, insts.drop_last(), di);
        let before = known_after(k, insts.drop_last(), di, false).loads;
        let after = known_after(k, insts, di, false).loads;
        assert forall|n: Seq<char>| #[trigger] after.contains_key(n) implies !(after[n]).3 by {
            assert(before.contains_key(n) ==> !(before[n]).3);
        }
    }
}

/// Without debug information nothing is recovered, and recovery from references alone
/// rests on no assumption.
pub proof fn references_need_no_assumption(f: LFunc, di: DiView)
    ensures
        f.dbg is None ==> field_loads_of(f, di, true) == Map::<Seq<char>, LoadedPtr>::empty(),
        forall|n: Seq<char>| #[trigger]
            field_loads_of(f, di, false).contains_key(n) ==> !(field_loads_of(f, di, false)[n]).3,
{
    if let Some(sp) = f.dbg {
        lemma_references_are_owed(known_at_start(f, sp, di, false), flat(f.blocks@), di);
    }
}

} // verus!
