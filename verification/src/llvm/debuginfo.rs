//! Recovering pointee types from debug-info metadata.
//!
//! An opaque pointer type says nothing of what it points to. Where a module carries
//! debug information, the type of each parameter is still there as metadata:
//!
//! ```text
//! define … !dbg !N                          ; N = the DISubprogram
//! !V = !DILocalVariable(arg: k, scope: !N, type: !T)
//! !T = !DIDerivedType(tag: DW_TAG_pointer_type, name: "&mut T", baseType: !P, …)
//! !P = !DICompositeType(… size: <bits>)     ; the pointee, sized in bits
//! ```
//!
//! A size alone does not make a pointer valid. A contract is given only for the kinds
//! that the source language guarantees: a Rust reference (a pointer type whose name
//! begins with `&`, in a module whose language is Rust) and a reference type.

use crate::text::{
    after_prefix, before_suffix, chars_of, find_char, find_from, first_at, first_char, from,
    opt_view, parse_i64, parse_u32, parse_u64, pieces, same_text, signed, stands_at, strip_prefix,
    strip_suffix, trim, trim_start, trimmed, trimmed_start, unsigned,
};
use std::collections::HashMap;
use vstd::prelude::*;
use vstd::slice::slice_subrange;

verus! {

broadcast use vstd::std_specs::hash::group_hash_axioms;

/// A node of the type graph.
pub enum DiNode {
    /// A pointer type: its pointee, and whether its name makes it a reference and a
    /// writable one.
    Pointer { base: u32, reference: bool, writable: bool },
    /// A reference type.
    Reference { base: u32, writable: bool },
    /// A struct or union: the list of its members, its size and its alignment.
    Composite { elements: Option<u32>, size_bytes: Option<u64>, align_bytes: Option<u32> },
    /// A member: its offset in the struct, and its type.
    Member { offset_bytes: u64, base: u32 },
    /// A list of nodes.
    Tuple(Vec<u32>),
    /// Any other type, with the one to follow for a typedef or qualifier.
    Sized { size_bytes: Option<u64>, align_bytes: Option<u32>, follows: Option<u32> },
}

/// A node as a mathematical value.
pub enum NodeView {
    Pointer { base: u32, reference: bool, writable: bool },
    Reference { base: u32, writable: bool },
    Composite { elements: Option<u32>, size_bytes: Option<u64>, align_bytes: Option<u32> },
    Member { offset_bytes: u64, base: u32 },
    Tuple(Seq<u32>),
    Sized { size_bytes: Option<u64>, align_bytes: Option<u32>, follows: Option<u32> },
}

impl View for DiNode {
    type V = NodeView;

    open spec fn view(&self) -> NodeView {
        match self {
            DiNode::Pointer { base, reference, writable } => NodeView::Pointer {
                base: *base,
                reference: *reference,
                writable: *writable,
            },
            DiNode::Reference { base, writable } => NodeView::Reference {
                base: *base,
                writable: *writable,
            },
            DiNode::Composite { elements, size_bytes, align_bytes } => NodeView::Composite {
                elements: *elements,
                size_bytes: *size_bytes,
                align_bytes: *align_bytes,
            },
            DiNode::Member { offset_bytes, base } => NodeView::Member {
                offset_bytes: *offset_bytes,
                base: *base,
            },
            DiNode::Tuple(v) => NodeView::Tuple(v@),
            DiNode::Sized { size_bytes, align_bytes, follows } => NodeView::Sized {
                size_bytes: *size_bytes,
                align_bytes: *align_bytes,
                follows: *follows,
            },
        }
    }
}

/// The type graph as a mathematical value.
pub struct DiView {
    pub nodes: Map<u32, NodeView>,
    /// By subprogram and position from 1 on, the type of a parameter.
    pub params: Map<(u32, u32), u32>,
    /// The declared type of each local variable.
    pub locals: Map<u32, u32>,
    /// Structs and unions by name.
    pub by_name: Map<Seq<char>, u32>,
    /// The source language is Rust.
    pub rust: bool,
}

/// A parsed subset of the type graph, keyed by metadata id.
pub struct DebugInfo {
    nodes: HashMap<u32, DiNode>,
    params: HashMap<u64, u32>,
    locals: HashMap<u32, u32>,
    by_name: Vec<(Vec<char>, u32)>,
    rust: bool,
}

/// The key of a parameter.
pub open spec fn param_key(subprogram: u32, arg: u32) -> u64 {
    (subprogram * 0x1_0000_0000 + arg) as u64
}

fn key_of(subprogram: u32, arg: u32) -> (k: u64)
    ensures
        k == param_key(subprogram, arg),
{
    subprogram as u64 * 0x1_0000_0000 + arg as u64
}

proof fn lemma_param_key(a: u32, b: u32, c: u32, d: u32)
    ensures
        param_key(a, b) == param_key(c, d) <==> a == c && b == d,
{
}

/// The node map as a map of mathematical values.
pub open spec fn nodes_view(nodes: Map<u32, DiNode>) -> Map<u32, NodeView> {
    nodes.map_values(|n: DiNode| n@)
}

/// The parameter map by subprogram and position.
pub open spec fn params_view(params: Map<u64, u32>) -> Map<(u32, u32), u32> {
    Map::new(
        |k: (u32, u32)| params.contains_key(param_key(k.0, k.1)),
        |k: (u32, u32)| params[param_key(k.0, k.1)],
    )
}

/// The first number under each name.
pub open spec fn first_named(names: Seq<(Vec<char>, u32)>) -> Map<Seq<char>, u32>
    decreases names.len(),
{
    if names.len() == 0 {
        Map::empty()
    } else {
        let prior = first_named(names.drop_last());
        if prior.contains_key(names.last().0@) {
            prior
        } else {
            prior.insert(names.last().0@, names.last().1)
        }
    }
}

impl View for DebugInfo {
    type V = DiView;

    closed spec fn view(&self) -> DiView {
        DiView {
            nodes: nodes_view(self.nodes@),
            params: params_view(self.params@),
            locals: self.locals@,
            by_name: first_named(self.by_name@),
            rust: self.rust,
        }
    }
}

/// What is known of a pointer's target.
#[derive(Clone, Copy, PartialEq, Eq, Debug, Structural)]
pub struct RefContract {
    pub size: u64,
    pub align: u32,
    pub writable: bool,
}

// ---- queries ----

impl DiView {
    /// The target and writability of a type that is a valid reference in this module's
    /// language.
    pub open spec fn valid_ref(self, ty: u32) -> Option<(u32, bool)> {
        if !self.nodes.contains_key(ty) {
            None
        } else {
            match self.nodes[ty] {
                NodeView::Pointer { base, reference, writable } => if reference && self.rust {
                    Some((base, writable))
                } else {
                    None
                },
                NodeView::Reference { base, writable } => Some((base, writable)),
                _ => None,
            }
        }
    }

    /// The size of a type, following at most `fuel` typedefs and qualifiers.
    pub open spec fn sized_bytes(self, id: u32, fuel: nat) -> Option<u64>
        decreases fuel,
    {
        if fuel == 0 || !self.nodes.contains_key(id) {
            None
        } else {
            match self.nodes[id] {
                NodeView::Sized { size_bytes: Some(n), .. } => Some(n),
                NodeView::Sized { size_bytes: None, follows: Some(next), .. } => self.sized_bytes(
                    next,
                    (fuel - 1) as nat,
                ),
                NodeView::Composite { size_bytes: Some(n), .. } => Some(n),
                NodeView::Pointer { .. } => Some(8),
                NodeView::Reference { .. } => Some(8),
                _ => None,
            }
        }
    }

    /// The alignment of a type, following at most `fuel` typedefs and qualifiers; 1 where
    /// none is recorded.
    pub open spec fn sized_align(self, id: u32, fuel: nat) -> u32
        decreases fuel,
    {
        if fuel == 0 || !self.nodes.contains_key(id) {
            1
        } else {
            match self.nodes[id] {
                NodeView::Sized { align_bytes: Some(a), .. } => a,
                NodeView::Composite { align_bytes: Some(a), .. } => a,
                NodeView::Sized { align_bytes: None, follows: Some(next), .. } => self.sized_align(
                    next,
                    (fuel - 1) as nat,
                ),
                NodeView::Pointer { .. } => 8,
                NodeView::Reference { .. } => 8,
                _ => 1,
            }
        }
    }

    /// The member list of a struct, following at most `fuel` typedefs and qualifiers.
    pub open spec fn composite_elements(self, id: u32, fuel: nat) -> Option<u32>
        decreases fuel,
    {
        if fuel == 0 || !self.nodes.contains_key(id) {
            None
        } else {
            match self.nodes[id] {
                NodeView::Composite { elements, .. } => elements,
                NodeView::Sized { follows: Some(next), .. } => self.composite_elements(
                    next,
                    (fuel - 1) as nat,
                ),
                _ => None,
            }
        }
    }

    /// A reference's target as a contract.
    pub open spec fn contract(self, target: Option<(u32, bool)>) -> Option<RefContract> {
        match target {
            Some((base, writable)) => match self.sized_bytes(base, 16) {
                Some(size) => Some(
                    RefContract { size, align: self.sized_align(base, 16), writable },
                ),
                None => None,
            },
            None => None,
        }
    }

    /// The contract of a parameter that is a valid reference of known size.
    pub open spec fn param_ref(self, subprogram: u32, arg: u32) -> Option<RefContract> {
        if self.params.contains_key((subprogram, arg)) {
            self.contract(self.valid_ref(self.params[(subprogram, arg)]))
        } else {
            None
        }
    }

    /// The type of the first member at `offset` among the listed ones.
    pub open spec fn member_at(self, members: Seq<u32>, offset: u64) -> Option<u32>
        decreases members.len(),
    {
        if members.len() == 0 {
            None
        } else {
            let m = members[0];
            let rest = self.member_at(members.subrange(1, members.len() as int), offset);
            if self.nodes.contains_key(m) {
                match self.nodes[m] {
                    NodeView::Member { offset_bytes, base } => if offset_bytes == offset {
                        Some(base)
                    } else {
                        rest
                    },
                    _ => rest,
                }
            } else {
                rest
            }
        }
    }

    /// The type of the first member of a struct at `offset`.
    pub open spec fn member_type(self, struct_id: u32, offset: u64) -> Option<u32> {
        match self.composite_elements(struct_id, 16) {
            Some(elements) => if self.nodes.contains_key(elements) {
                match self.nodes[elements] {
                    NodeView::Tuple(members) => self.member_at(members, offset),
                    _ => None,
                }
            } else {
                None
            },
            None => None,
        }
    }

    /// The target of a pointer or reference type.
    pub open spec fn pointee(self, ty: u32) -> Option<u32> {
        if self.nodes.contains_key(ty) {
            match self.nodes[ty] {
                NodeView::Pointer { base, .. } => Some(base),
                NodeView::Reference { base, .. } => Some(base),
                _ => None,
            }
        } else {
            None
        }
    }

    /// The target of a pointer type.
    pub open spec fn raw_pointee(self, ty: u32) -> Option<u32> {
        if self.nodes.contains_key(ty) {
            match self.nodes[ty] {
                NodeView::Pointer { base, .. } => Some(base),
                _ => None,
            }
        } else {
            None
        }
    }
}

/// The largest power of two up to 16 that divides `size`; 16 for 0.
pub open spec fn natural_align(size: u64) -> u32 {
    if size % 16 == 0 {
        16
    } else if size % 8 == 0 {
        8
    } else if size % 4 == 0 {
        4
    } else if size % 2 == 0 {
        2
    } else {
        1
    }
}

impl DebugInfo {
    fn node(&self, id: u32) -> (r: Option<&DiNode>)
        ensures
            match r {
                Some(n) => self@.nodes.contains_key(id) && self@.nodes[id] == n@,
                None => !self@.nodes.contains_key(id),
            },
    {
        self.nodes.get(&id)
    }

    fn param(&self, subprogram: u32, arg: u32) -> (r: Option<u32>)
        ensures
            r == if self@.params.contains_key((subprogram, arg)) {
                Some(self@.params[(subprogram, arg)])
            } else {
                None
            },
    {
        match self.params.get(&key_of(subprogram, arg)) {
            Some(t) => Some(*t),
            None => None,
        }
    }

    /// The contract of parameter `arg` (from 1 on) of a subprogram, where it is a valid
    /// reference of known size.
    pub fn param_ref(&self, subprogram: u32, arg: u32) -> (r: Option<RefContract>)
        ensures
            r == self@.param_ref(subprogram, arg),
    {
        match self.param(subprogram, arg) {
            Some(ty) => self.contract(self.valid_ref(ty)),
            None => None,
        }
    }

    fn contract(&self, target: Option<(u32, bool)>) -> (r: Option<RefContract>)
        ensures
            r == self@.contract(target),
    {
        match target {
            Some((base, writable)) => match self.sized_bytes(base) {
                Some(size) => Some(RefContract { size, align: self.sized_align(base), writable }),
                None => None,
            },
            None => None,
        }
    }

    fn valid_ref(&self, ty: u32) -> (r: Option<(u32, bool)>)
        ensures
            r == self@.valid_ref(ty),
    {
        match self.node(ty) {
            Some(DiNode::Pointer { base, reference, writable }) => if *reference && self.rust {
                Some((*base, *writable))
            } else {
                None
            },
            Some(DiNode::Reference { base, writable }) => Some((*base, *writable)),
            _ => None,
        }
    }

    fn sized_bytes(&self, start: u32) -> (r: Option<u64>)
        ensures
            r == self@.sized_bytes(start, 16),
    {
        let mut id: u32 = start;
        let mut fuel: u32 = 16;
        while fuel > 0
            invariant
                fuel <= 16,
                self@.sized_bytes(start, 16) == self@.sized_bytes(id, fuel as nat),
            decreases fuel,
        {
            match self.node(id) {
                Some(DiNode::Sized { size_bytes, follows, .. }) => match size_bytes {
                    Some(n) => {
                        return Some(*n);
                    },
                    None => match follows {
                        Some(next) => {
                            id = *next;
                        },
                        None => {
                            return None;
                        },
                    },
                },
                Some(DiNode::Composite { size_bytes, .. }) => {
                    return *size_bytes;
                },
                Some(DiNode::Pointer { .. }) => {
                    return Some(8);
                },
                Some(DiNode::Reference { .. }) => {
                    return Some(8);
                },
                _ => {
                    return None;
                },
            }
            fuel -= 1;
        }
        None
    }

    fn sized_align(&self, start: u32) -> (r: u32)
        ensures
            r == self@.sized_align(start, 16),
    {
        let mut id: u32 = start;
        let mut fuel: u32 = 16;
        while fuel > 0
            invariant
                fuel <= 16,
                self@.sized_align(start, 16) == self@.sized_align(id, fuel as nat),
            decreases fuel,
        {
            match self.node(id) {
                Some(DiNode::Sized { align_bytes, follows, .. }) => match align_bytes {
                    Some(a) => {
                        return *a;
                    },
                    None => match follows {
                        Some(next) => {
                            id = *next;
                        },
                        None => {
                            return 1;
                        },
                    },
                },
                Some(DiNode::Composite { align_bytes, .. }) => {
                    return match align_bytes {
                        Some(a) => *a,
                        None => 1,
                    };
                },
                Some(DiNode::Pointer { .. }) => {
                    return 8;
                },
                Some(DiNode::Reference { .. }) => {
                    return 8;
                },
                _ => {
                    return 1;
                },
            }
            fuel -= 1;
        }
        1
    }

    fn composite_elements(&self, start: u32) -> (r: Option<u32>)
        ensures
            r == self@.composite_elements(start, 16),
    {
        let mut id: u32 = start;
        let mut fuel: u32 = 16;
        while fuel > 0
            invariant
                fuel <= 16,
                self@.composite_elements(start, 16) == self@.composite_elements(id, fuel as nat),
            decreases fuel,
        {
            match self.node(id) {
                Some(DiNode::Composite { elements, .. }) => {
                    return *elements;
                },
                Some(DiNode::Sized { follows, .. }) => match follows {
                    Some(next) => {
                        id = *next;
                    },
                    None => {
                        return None;
                    },
                },
                _ => {
                    return None;
                },
            }
            fuel -= 1;
        }
        None
    }

    fn member_type(&self, struct_id: u32, offset: u64) -> (r: Option<u32>)
        ensures
            r == self@.member_type(struct_id, offset),
    {
        match self.composite_elements(struct_id) {
            Some(elements) => match self.node(elements) {
                Some(DiNode::Tuple(members)) => {
                    let mut k: usize = 0;
                    assert(members@.subrange(0, members@.len() as int) =~= members@);
                    while k < members.len()
                        invariant
                            k <= members@.len(),
                            self@.member_type(struct_id, offset) == self@.member_at(
                                members@,
                                offset,
                            ),
                            self@.member_at(members@, offset) == self@.member_at(
                                members@.subrange(k as int, members@.len() as int),
                                offset,
                            ),
                        decreases members@.len() - k,
                    {
                        let ghost rest = members@.subrange(k as int, members@.len() as int);
                        assert(rest.subrange(1, rest.len() as int) =~= members@.subrange(
                            k + 1,
                            members@.len() as int,
                        ));
                        if let Some(DiNode::Member { offset_bytes, base }) = self.node(members[k]) {
                            if *offset_bytes == offset {
                                return Some(*base);
                            }
                        }
                        k += 1;
                    }
                    None
                },
                _ => None,
            },
            None => None,
        }
    }

    fn pointee(&self, ty: u32) -> (r: Option<u32>)
        ensures
            r == self@.pointee(ty),
    {
        match self.node(ty) {
            Some(DiNode::Pointer { base, .. }) => Some(*base),
            Some(DiNode::Reference { base, .. }) => Some(*base),
            _ => None,
        }
    }

    fn raw_pointee(&self, ty: u32) -> (r: Option<u32>)
        ensures
            r == self@.raw_pointee(ty),
    {
        match self.node(ty) {
            Some(DiNode::Pointer { base, .. }) => Some(*base),
            _ => None,
        }
    }

    /// The size and alignment of what a raw pointer parameter points to.
    pub fn param_raw_ptr(&self, subprogram: u32, arg: u32) -> (r: Option<(u64, u32)>)
        ensures
            r == if self@.params.contains_key((subprogram, arg)) {
                match self@.raw_pointee(self@.params[(subprogram, arg)]) {
                    Some(base) => match self@.sized_bytes(base, 16) {
                        Some(size) => Some((size, self@.sized_align(base, 16))),
                        None => None,
                    },
                    None => None,
                }
            } else {
                None
            },
    {
        match self.param(subprogram, arg) {
            Some(ty) => match self.raw_pointee(ty) {
                Some(base) => match self.sized_bytes(base) {
                    Some(size) => Some((size, self.sized_align(base))),
                    None => None,
                },
                None => None,
            },
            None => None,
        }
    }

    /// The type that any pointer parameter points to.
    pub fn param_pointee_any(&self, subprogram: u32, arg: u32) -> (r: Option<u32>)
        ensures
            r == if self@.params.contains_key((subprogram, arg)) {
                self@.pointee(self@.params[(subprogram, arg)])
            } else {
                None
            },
    {
        match self.param(subprogram, arg) {
            Some(ty) => self.pointee(ty),
            None => None,
        }
    }

    /// The contract of a struct's member at `offset`, where it is a valid reference.
    pub fn member_ref(&self, struct_id: u32, offset: u64) -> (r: Option<RefContract>)
        ensures
            r == match self@.member_type(struct_id, offset) {
                Some(ty) => self@.contract(self@.valid_ref(ty)),
                None => None,
            },
    {
        match self.member_type(struct_id, offset) {
            Some(ty) => self.contract(self.valid_ref(ty)),
            None => None,
        }
    }

    /// The size and alignment of what a struct's raw pointer member at `offset` points to.
    /// An alignment that is not recorded is taken from the size.
    pub fn member_raw_ptr(&self, struct_id: u32, offset: u64) -> (r: Option<(u64, u32)>)
        ensures
            r == match self@.raw_member(struct_id, offset) {
                Some(target) => match self@.sized_bytes(target, 16) {
                    Some(size) => Some(
                        (
                            size,
                            if self@.sized_align(target, 16) > natural_align(size) {
                                self@.sized_align(target, 16)
                            } else {
                                natural_align(size)
                            },
                        ),
                    ),
                    None => None,
                },
                None => None,
            },
    {
        match self.raw_member(struct_id, offset) {
            Some(target) => match self.sized_bytes(target) {
                Some(size) => {
                    let natural: u32 = size_align(size);
                    let a: u32 = self.sized_align(target);
                    Some(
                        (
                            size,
                            if a > natural {
                                a
                            } else {
                                natural
                            },
                        ),
                    )
                },
                None => None,
            },
            None => None,
        }
    }

    fn raw_member(&self, struct_id: u32, offset: u64) -> (r: Option<u32>)
        ensures
            r == self@.raw_member(struct_id, offset),
    {
        match self.composite_elements(struct_id) {
            Some(elements) => match self.node(elements) {
                Some(DiNode::Tuple(members)) => {
                    let mut k: usize = 0;
                    assert(members@.subrange(0, members@.len() as int) =~= members@);
                    while k < members.len()
                        invariant
                            k <= members@.len(),
                            self@.raw_member(struct_id, offset) == self@.raw_member_at(
                                members@,
                                offset,
                            ),
                            self@.raw_member_at(members@, offset) == self@.raw_member_at(
                                members@.subrange(k as int, members@.len() as int),
                                offset,
                            ),
                        decreases members@.len() - k,
                    {
                        let ghost rest = members@.subrange(k as int, members@.len() as int);
                        assert(rest.subrange(1, rest.len() as int) =~= members@.subrange(
                            k + 1,
                            members@.len() as int,
                        ));
                        if let Some(DiNode::Member { offset_bytes, base }) = self.node(members[k]) {
                            if *offset_bytes == offset {
                                match self.node(*base) {
                                    None => {
                                        return None;
                                    },
                                    Some(DiNode::Pointer { base: target, .. }) => {
                                        return Some(*target);
                                    },
                                    _ => {},
                                }
                            }
                        }
                        k += 1;
                    }
                    None
                },
                _ => None,
            },
            None => None,
        }
    }

    /// The type that a struct's pointer or reference member at `offset` points to.
    pub fn member_pointee(&self, struct_id: u32, offset: u64) -> (r: Option<u32>)
        ensures
            r == match self@.member_type(struct_id, offset) {
                Some(ty) => self@.pointee(ty),
                None => None,
            },
    {
        match self.member_type(struct_id, offset) {
            Some(ty) => self.pointee(ty),
            None => None,
        }
    }

    /// The size of what a local variable of pointer or reference type points to.
    pub fn local_pointee_bytes(&self, var_id: u32) -> (r: Option<u64>)
        ensures
            r == if self@.locals.contains_key(var_id) {
                match self@.pointee(self@.locals[var_id]) {
                    Some(base) => self@.sized_bytes(base, 16),
                    None => None,
                }
            } else {
                None
            },
    {
        match self.locals.get(&var_id) {
            Some(ty) => match self.pointee(*ty) {
                Some(base) => self.sized_bytes(base),
                None => None,
            },
            None => None,
        }
    }
}

impl DiView {
    /// The target of the first member at `offset` that is a pointer; none where a member at
    /// `offset` before it has an unknown type.
    pub open spec fn raw_member_at(self, members: Seq<u32>, offset: u64) -> Option<u32>
        decreases members.len(),
    {
        if members.len() == 0 {
            None
        } else {
            let m = members[0];
            let rest = self.raw_member_at(members.subrange(1, members.len() as int), offset);
            if self.nodes.contains_key(m) {
                match self.nodes[m] {
                    NodeView::Member { offset_bytes, base } => if offset_bytes == offset {
                        if !self.nodes.contains_key(base) {
                            None
                        } else {
                            match self.nodes[base] {
                                NodeView::Pointer { base: target, .. } => Some(target),
                                _ => rest,
                            }
                        }
                    } else {
                        rest
                    },
                    _ => rest,
                }
            } else {
                rest
            }
        }
    }

    /// The target of a struct's raw pointer member at `offset`.
    pub open spec fn raw_member(self, struct_id: u32, offset: u64) -> Option<u32> {
        match self.composite_elements(struct_id, 16) {
            Some(elements) => if self.nodes.contains_key(elements) {
                match self.nodes[elements] {
                    NodeView::Tuple(members) => self.raw_member_at(members, offset),
                    _ => None,
                }
            } else {
                None
            },
            None => None,
        }
    }
}

// ---- fields of a node's text ----

/// A key may start at `at`: at the beginning, or after a blank, a bracket or a comma.
pub open spec fn key_boundary(args: Seq<char>, at: int) -> bool {
    at == 0 || args[at - 1] == ' ' || args[at - 1] == '(' || args[at - 1] == ','
}

/// Where the first `field` from `i` on that stands at a boundary ends.
pub open spec fn field_end(args: Seq<char>, field: Seq<char>, i: int) -> Option<int>
    decreases args.len() - i,
{
    match first_at(args, field, i) {
        Some(at) => if key_boundary(args, at) {
            Some(at + field.len())
        } else if field.len() > 0 && at >= i && at + field.len() <= args.len() {
            field_end(args, field, at + field.len())
        } else {
            None
        },
        None => None,
    }
}

/// The text after a `field:`, without leading white space.
pub open spec fn field_value(args: Seq<char>, field: Seq<char>) -> Option<Seq<char>> {
    match field_end(args, field, 0) {
        Some(e) => Some(trimmed_start(from(args, e))),
        None => None,
    }
}

/// The raw token of a `field:`: up to the next comma or the end, or a whole quotation.
pub open spec fn field_token(args: Seq<char>, field: Seq<char>) -> Option<Seq<char>> {
    match field_value(args, field) {
        None => None,
        Some(v) => if v.len() > 0 && v[0] == '"' {
            match first_char(from(v, 1), '"') {
                Some(i) => Some(trimmed(v.take(i + 2))),
                None => None,
            }
        } else {
            match first_char(v, ',') {
                Some(i) => Some(trimmed(v.take(i))),
                None => Some(trimmed(v)),
            }
        },
    }
}

/// A `field: "quoted"` without its quotes.
pub open spec fn field_quoted(args: Seq<char>, field: Seq<char>) -> Option<Seq<char>> {
    match field_value(args, field) {
        None => None,
        Some(v) => if v.len() > 0 && v[0] == '"' {
            match first_char(from(v, 1), '"') {
                Some(i) => Some(from(v, 1).take(i)),
                None => None,
            }
        } else {
            None
        },
    }
}

/// A number as a 32-bit one.
pub open spec fn opt_u32(v: Option<int>) -> Option<u32> {
    match v {
        Some(x) => Some(x as u32),
        None => None,
    }
}

/// The metadata id after an exclamation mark.
pub open spec fn meta_ref(s: Seq<char>) -> Option<u32> {
    if s.len() > 0 && s[0] == '!' {
        opt_u32(unsigned(from(s, 1), u32::MAX as int))
    } else {
        None
    }
}

/// A `field: !N`.
pub open spec fn field_meta(args: Seq<char>, field: Seq<char>) -> Option<u32> {
    match field_token(args, field) {
        Some(t) => meta_ref(t),
        None => None,
    }
}

/// A `field: N`.
pub open spec fn field_number(args: Seq<char>, field: Seq<char>) -> Option<int> {
    match field_token(args, field) {
        Some(t) => signed(t),
        None => None,
    }
}

/// A `size:` in bits as whole bytes.
pub open spec fn size_in_bytes(args: Seq<char>) -> Option<u64> {
    match field_token(args, "size:"@) {
        Some(t) => match unsigned(t, u64::MAX as int) {
            Some(bits) => Some((bits / 8) as u64),
            None => None,
        },
        None => None,
    }
}

/// An `align:` in bits as whole bytes, at least 1.
pub open spec fn align_in_bytes(args: Seq<char>) -> Option<u32> {
    match field_token(args, "align:"@) {
        Some(t) => match unsigned(t, u32::MAX as int) {
            Some(bits) => Some(
                if bits / 8 < 1 {
                    1
                } else {
                    (bits / 8) as u32
                },
            ),
            None => None,
        },
        None => None,
    }
}

fn find_field<'a>(args: &'a [char], field: &str) -> (r: Option<&'a [char]>)
    requires
        field@.len() > 0,
    ensures
        opt_view(r) == field_value(args@, field@),
{
    let pat = chars_of(field);
    let n: usize = args.len();
    let mut i: usize = 0;
    while i <= n
        invariant
            n == args@.len(),
            pat@ == field@,
            field@.len() > 0,
            field_end(args@, field@, 0) == field_end(args@, field@, i as int),
        decreases n + 1 - i,
    {
        match find_from(args, pat.as_slice(), i) {
            None => {
                return None;
            },
            Some(at) => {
                assert(at + pat@.len() <= n);
                if at == 0 || args[at - 1] == ' ' || args[at - 1] == '(' || args[at - 1] == ',' {
                    return Some(trim_start(slice_subrange(args, at + pat.len(), n)));
                }
                i = at + pat.len();
            },
        }
    }
    None
}

fn field_raw<'a>(args: &'a [char], field: &str) -> (r: Option<&'a [char]>)
    requires
        field@.len() > 0,
    ensures
        opt_view(r) == field_token(args@, field@),
{
    match find_field(args, field) {
        None => None,
        Some(v) => if v.len() > 0 && v[0] == '"' {
            let after = slice_subrange(v, 1, v.len());
            match find_char(after, '"') {
                Some(i) => {
                    assert(v@.take(i + 2) =~= v@.subrange(0, i + 2));
                    Some(trim(slice_subrange(v, 0, i + 2)))
                },
                None => None,
            }
        } else {
            match find_char(v, ',') {
                Some(i) => {
                    assert(v@.take(i as int) =~= v@.subrange(0, i as int));
                    Some(trim(slice_subrange(v, 0, i)))
                },
                None => Some(trim(v)),
            }
        },
    }
}

fn field_str<'a>(args: &'a [char], field: &str) -> (r: Option<&'a [char]>)
    requires
        field@.len() > 0,
    ensures
        opt_view(r) == field_quoted(args@, field@),
{
    match find_field(args, field) {
        None => None,
        Some(v) => if v.len() > 0 && v[0] == '"' {
            let after = slice_subrange(v, 1, v.len());
            match find_char(after, '"') {
                Some(i) => {
                    assert(after@.take(i as int) =~= after@.subrange(0, i as int));
                    Some(slice_subrange(after, 0, i))
                },
                None => None,
            }
        } else {
            None
        },
    }
}

fn ref_in(s: &[char]) -> (r: Option<u32>)
    ensures
        r == meta_ref(s@),
{
    if s.len() > 0 && s[0] == '!' {
        parse_u32(slice_subrange(s, 1, s.len()))
    } else {
        None
    }
}

fn field_ref(args: &[char], field: &str) -> (r: Option<u32>)
    requires
        field@.len() > 0,
    ensures
        r == field_meta(args@, field@),
{
    match field_raw(args, field) {
        Some(t) => ref_in(t),
        None => None,
    }
}

fn field_int(args: &[char], field: &str) -> (r: Option<i64>)
    requires
        field@.len() > 0,
    ensures
        match r {
            Some(v) => field_number(args@, field@) == Some(v as int),
            None => field_number(args@, field@) is None,
        },
{
    match field_raw(args, field) {
        Some(t) => parse_i64(t),
        None => None,
    }
}

fn bits_to_bytes(args: &[char]) -> (r: Option<u64>)
    ensures
        r == size_in_bytes(args@),
{
    proof {
        reveal_strlit("size:");
    }
    match field_raw(args, "size:") {
        Some(t) => match parse_u64(t) {
            Some(bits) => Some(bits / 8),
            None => None,
        },
        None => None,
    }
}

fn bits_to_bytes_u32(args: &[char]) -> (r: Option<u32>)
    ensures
        r == align_in_bytes(args@),
{
    proof {
        reveal_strlit("align:");
    }
    match field_raw(args, "align:") {
        Some(t) => match parse_u32(t) {
            Some(bits) => Some(
                if bits / 8 < 1 {
                    1
                } else {
                    bits / 8
                },
            ),
            None => None,
        },
        None => None,
    }
}

/// The text between `open` and a final bracket.
pub open spec fn bracketed(body: Seq<char>, open: Seq<char>) -> Option<Seq<char>> {
    match after_prefix(body, open) {
        Some(r) => before_suffix(r, ')'),
        None => None,
    }
}

fn tag_body<'a>(body: &'a [char], open: &str) -> (r: Option<&'a [char]>)
    ensures
        opt_view(r) == bracketed(body@, open@),
{
    let pat = chars_of(open);
    match strip_prefix(body, pat.as_slice()) {
        Some(rest) => strip_suffix(rest, ')'),
        None => None,
    }
}

/// Each element of a list of metadata references, or nothing where it is none.
pub open spec fn refs_of(list: Seq<Seq<char>>) -> Seq<Option<u32>> {
    Seq::new(list.len(), |k: int| meta_ref(trimmed(list[k])))
}

/// What is there of the optional values.
pub open spec fn somes(s: Seq<Option<u32>>) -> Seq<u32>
    decreases s.len(),
{
    if s.len() == 0 {
        Seq::empty()
    } else {
        match s.last() {
            Some(v) => somes(s.drop_last()).push(v),
            None => somes(s.drop_last()),
        }
    }
}

/// The inside of a metadata tuple.
pub open spec fn tuple_inner(body: Seq<char>) -> Option<Seq<char>> {
    match after_prefix(body, "!{"@) {
        Some(r) => before_suffix(r, '}'),
        None => None,
    }
}

/// The elements of a metadata tuple by position.
fn positions(inner: &[char]) -> (r: Vec<Option<u32>>)
    ensures
        r@ == refs_of(pieces(inner@, ',')),
{
    let mut out: Vec<Option<u32>> = Vec::new();
    let mut rest: &[char] = inner;
    let ghost all = refs_of(pieces(inner@, ','));
    assert(out@ + refs_of(pieces(rest@, ',')) =~= all);
    loop
        invariant
            out@ + refs_of(pieces(rest@, ',')) == all,
            all == refs_of(pieces(inner@, ',')),
        decreases rest@.len(),
    {
        let n: usize = rest.len();
        match find_char(rest, ',') {
            Some(i) => {
                let ghost before = out@;
                let ghost was = rest@;
                let piece = slice_subrange(rest, 0, i);
                out.push(ref_in(trim(piece)));
                rest = slice_subrange(rest, i + 1, n);
                proof {
                    assert(piece@ =~= was.take(i as int));
                    assert(rest@ =~= from(was, i + 1));
                    let tail = pieces(rest@, ',');
                    assert(pieces(was, ',') == seq![was.take(i as int)] + tail);
                    assert(refs_of(pieces(was, ',')) =~= seq![meta_ref(trimmed(piece@))] + refs_of(
                        tail,
                    ));
                    assert(out@ + refs_of(tail) =~= before + refs_of(pieces(was, ',')));
                }
            },
            None => {
                let ghost before = out@;
                out.push(ref_in(trim(rest)));
                proof {
                    assert(pieces(rest@, ',') == seq![rest@]);
                    assert(out@ =~= before + refs_of(pieces(rest@, ',')));
                }
                return out;
            },
        }
    }
}

fn present(v: &Vec<Option<u32>>) -> (r: Vec<u32>)
    ensures
        r@ == somes(v@),
{
    let mut r: Vec<u32> = Vec::new();
    let mut k: usize = 0;
    assert(v@.take(0) =~= Seq::<Option<u32>>::empty());
    while k < v.len()
        invariant
            k <= v@.len(),
            r@ == somes(v@.take(k as int)),
        decreases v@.len() - k,
    {
        assert(v@.take(k + 1).drop_last() =~= v@.take(k as int));
        if let Some(x) = v[k] {
            r.push(x);
        }
        k += 1;
    }
    assert(v@.take(v@.len() as int) =~= v@);
    r
}

// ---- reading a module ----

/// The graph so far, with what signatures say.
pub struct ParseView {
    pub di: DiView,
    /// The subroutine type of each subprogram.
    pub subprograms: Map<u32, u32>,
    /// The list of types of each subroutine type.
    pub subroutines: Map<u32, u32>,
    /// The lists by position.
    pub tuples: Map<u32, Seq<Option<u32>>>,
}

/// The low 32 bits of a number.
pub open spec fn low32(v: int) -> u32 {
    (v % 0x1_0000_0000) as u32
}

/// The graph with one more node.
pub open spec fn with_node(di: DiView, id: u32, n: NodeView) -> DiView {
    DiView { nodes: di.nodes.insert(id, n), ..di }
}

/// A derived type: a pointer, a reference, a member, or a typedef or qualifier.
pub open spec fn derived_node(args: Seq<char>) -> Option<NodeView> {
    let tag = field_token(args, "tag:"@);
    let base = field_meta(args, "baseType:"@);
    if tag == Some("DW_TAG_pointer_type"@) {
        let name = field_quoted(args, "name:"@);
        match base {
            Some(b) => Some(
                NodeView::Pointer {
                    base: b,
                    reference: name is Some && stands_at(name->0, "&"@, 0),
                    writable: name is Some && stands_at(name->0, "&mut"@, 0),
                },
            ),
            None => None,
        }
    } else if tag == Some("DW_TAG_reference_type"@) {
        match base {
            Some(b) => Some(NodeView::Reference { base: b, writable: true }),
            None => None,
        }
    } else if tag == Some("DW_TAG_member"@) {
        match base {
            Some(b) => Some(
                NodeView::Member {
                    offset_bytes: match field_number(args, "offset:"@) {
                        Some(o) => if o > 0 {
                            (o / 8) as u64
                        } else {
                            0
                        },
                        None => 0,
                    },
                    base: b,
                },
            ),
            None => None,
        }
    } else {
        Some(
            NodeView::Sized {
                size_bytes: size_in_bytes(args),
                align_bytes: align_in_bytes(args),
                follows: base,
            },
        )
    }
}

/// What a definition says of signatures.
pub open spec fn signature_step(id: u32, body: Seq<char>, st: ParseView) -> ParseView {
    match bracketed(body, "!DISubprogram("@) {
        Some(args) => match field_meta(args, "type:"@) {
            Some(ty) => ParseView { subprograms: st.subprograms.insert(id, ty), ..st },
            None => st,
        },
        None => match bracketed(body, "!DISubroutineType("@) {
            Some(args) => match field_meta(args, "types:"@) {
                Some(t) => ParseView { subroutines: st.subroutines.insert(id, t), ..st },
                None => st,
            },
            None => st,
        },
    }
}

/// A local variable, which is a parameter where it has a position.
pub open spec fn local_step(id: u32, args: Seq<char>, di: DiView) -> DiView {
    match field_meta(args, "type:"@) {
        Some(ty) => {
            let di = DiView { locals: di.locals.insert(id, ty), ..di };
            match (field_number(args, "arg:"@), field_meta(args, "scope:"@)) {
                (Some(arg), Some(scope)) => DiView {
                    params: di.params.insert((scope, low32(arg)), ty),
                    ..di
                },
                _ => di,
            }
        },
        None => di,
    }
}

/// A struct or union, found again under its name where no other has taken it.
pub open spec fn composite_step(id: u32, args: Seq<char>, di: DiView) -> DiView {
    let di = with_node(
        di,
        id,
        NodeView::Composite {
            elements: field_meta(args, "elements:"@),
            size_bytes: size_in_bytes(args),
            align_bytes: align_in_bytes(args),
        },
    );
    match field_quoted(args, "name:"@) {
        Some(name) => if di.by_name.contains_key(name) {
            di
        } else {
            DiView { by_name: di.by_name.insert(name, id), ..di }
        },
        None => di,
    }
}

/// What a definition says of types.
pub open spec fn type_step(id: u32, body: Seq<char>, st: ParseView) -> ParseView {
    if let Some(args) = bracketed(body, "!DICompileUnit("@) {
        match field_token(args, "language:"@) {
            Some(l) => ParseView { di: DiView { rust: l == "DW_LANG_Rust"@, ..st.di }, ..st },
            None => st,
        }
    } else if let Some(args) = bracketed(body, "!DILocalVariable("@) {
        ParseView { di: local_step(id, args, st.di), ..st }
    } else if let Some(args) = bracketed(body, "!DIDerivedType("@) {
        match derived_node(args) {
            Some(n) => ParseView { di: with_node(st.di, id, n), ..st },
            None => st,
        }
    } else if let Some(args) = bracketed(body, "!DICompositeType("@) {
        ParseView { di: composite_step(id, args, st.di), ..st }
    } else if let Some(args) = bracketed(body, "!DIBasicType("@) {
        ParseView {
            di: with_node(
                st.di,
                id,
                NodeView::Sized {
                    size_bytes: size_in_bytes(args),
                    align_bytes: align_in_bytes(args),
                    follows: None,
                },
            ),
            ..st
        }
    } else if let Some(inner) = tuple_inner(body) {
        let list = refs_of(pieces(inner, ','));
        ParseView {
            di: with_node(st.di, id, NodeView::Tuple(somes(list))),
            tuples: st.tuples.insert(id, list),
            ..st
        }
    } else {
        st
    }
}

/// What one line says.
pub open spec fn line_step(line: Seq<char>, st: ParseView) -> ParseView {
    match after_prefix(trimmed_start(line), "!"@) {
        None => st,
        Some(rest) => match first_at(rest, " = "@, 0) {
            None => st,
            Some(i) => match unsigned(rest.take(i), u32::MAX as int) {
                None => st,
                Some(n) => {
                    let id = n as u32;
                    let tail = from(rest, i + 3);
                    let body = match after_prefix(tail, "distinct "@) {
                        Some(b) => b,
                        None => tail,
                    };
                    type_step(id, body, signature_step(id, body, st))
                },
            },
        },
    }
}

/// A line that a newline ends, without a carriage return before it.
pub open spec fn chomped(line: Seq<char>) -> Seq<char> {
    if line.len() > 0 && line.last() == '\r' {
        line.drop_last()
    } else {
        line
    }
}

/// What the lines of a text say, in order.
pub open spec fn text_steps(text: Seq<char>, st: ParseView) -> ParseView
    decreases text.len(),
{
    if text.len() == 0 {
        st
    } else {
        match first_char(text, '\n') {
            Some(i) if 0 <= i < text.len() => text_steps(
                from(text, i + 1),
                line_step(chomped(text.take(i)), st),
            ),
            _ => line_step(text, st),
        }
    }
}

/// The type of parameter `k` according to the signature of its subprogram.
pub open spec fn signature_type(st: ParseView, sp: u32, k: u32) -> Option<u32> {
    if !st.subprograms.contains_key(sp) || !st.subroutines.contains_key(st.subprograms[sp]) {
        None
    } else {
        let list = st.subroutines[st.subprograms[sp]];
        if st.tuples.contains_key(list) && 1 <= k < st.tuples[list].len() {
            st.tuples[list][k as int]
        } else {
            None
        }
    }
}

/// The parameters, with those that only a signature types.
pub open spec fn completed(st: ParseView) -> Map<(u32, u32), u32> {
    Map::new(
        |k: (u32, u32)| st.di.params.contains_key(k) || signature_type(st, k.0, k.1) is Some,
        |k: (u32, u32)|
            if st.di.params.contains_key(k) {
                st.di.params[k]
            } else {
                signature_type(st, k.0, k.1)->0
            },
    )
}

/// Nothing read yet.
pub open spec fn nothing_read() -> ParseView {
    ParseView {
        di: DiView {
            nodes: Map::empty(),
            params: Map::empty(),
            locals: Map::empty(),
            by_name: Map::empty(),
            rust: false,
        },
        subprograms: Map::empty(),
        subroutines: Map::empty(),
        tuples: Map::empty(),
    }
}

/// The type graph of a module's text.
pub open spec fn parsed(text: Seq<char>) -> DiView {
    let st = text_steps(text, nothing_read());
    DiView { params: completed(st), ..st.di }
}

/// The reading in progress.
struct Reading {
    di: DebugInfo,
    subprograms: HashMap<u32, u32>,
    named: Vec<u32>,
    subroutines: HashMap<u32, u32>,
    tuples: HashMap<u32, Vec<Option<u32>>>,
}

/// The lists' contents.
pub open spec fn tuples_view(m: Map<u32, Vec<Option<u32>>>) -> Map<u32, Seq<Option<u32>>> {
    m.map_values(|v: Vec<Option<u32>>| v@)
}

proof fn lemma_nodes_insert(m: Map<u32, DiNode>, id: u32, n: DiNode)
    ensures
        nodes_view(m.insert(id, n)) == nodes_view(m).insert(id, n@),
{
    assert(nodes_view(m.insert(id, n)) =~= nodes_view(m).insert(id, n@));
}

proof fn lemma_params_insert(m: Map<u64, u32>, a: u32, b: u32, ty: u32)
    ensures
        params_view(m.insert(param_key(a, b), ty)) == params_view(m).insert((a, b), ty),
{
    let left = params_view(m.insert(param_key(a, b), ty));
    let right = params_view(m).insert((a, b), ty);
    assert forall|k: (u32, u32)| left.contains_key(k) <==> right.contains_key(k) by {
        lemma_param_key(a, b, k.0, k.1);
    }
    assert forall|k: (u32, u32)| left.contains_key(k) implies left[k] == right[k] by {
        lemma_param_key(a, b, k.0, k.1);
    }
    assert(left =~= right);
}

fn low_bits_of(v: i64) -> (r: u32)
    ensures
        r == low32(v as int),
{
    if v >= 0 {
        (v as u64 % 0x1_0000_0000) as u32
    } else {
        let p: u64 = ((-(v + 1)) as u64) % 0x1_0000_0000;
        proof {
            let q = ((-(v + 1)) as u64) / 0x1_0000_0000;
            assert(v == (-q - 1) * 0x1_0000_0000 + (0xffff_ffff - p));
            vstd::arithmetic::div_mod::lemma_fundamental_div_mod_converse(
                v as int,
                0x1_0000_0000,
                -q - 1,
                0xffff_ffff - p,
            );
        }
        (0xffff_ffff - p) as u32
    }
}

fn copy_text(s: &[char]) -> (r: Vec<char>)
    ensures
        r@ == s@,
{
    let mut r: Vec<char> = Vec::new();
    let mut k: usize = 0;
    while k < s.len()
        invariant
            k <= s@.len(),
            r@ == s@.take(k as int),
        decreases s@.len() - k,
    {
        r.push(s[k]);
        k += 1;
        assert(r@ =~= s@.take(k as int));
    }
    assert(s@.take(s@.len() as int) =~= s@);
    r
}

/// The first number under a name.
fn lookup_name(names: &Vec<(Vec<char>, u32)>, name: &[char]) -> (r: Option<u32>)
    ensures
        r == if first_named(names@).contains_key(name@) {
            Some(first_named(names@)[name@])
        } else {
            None
        },
{
    let mut k: usize = 0;
    assert(names@.take(0) =~= Seq::<(Vec<char>, u32)>::empty());
    while k < names.len()
        invariant
            k <= names@.len(),
            !first_named(names@.take(k as int)).contains_key(name@),
        decreases names@.len() - k,
    {
        assert(names@.take(k + 1).drop_last() =~= names@.take(k as int));
        if same_text(names[k].0.as_slice(), name) {
            proof {
                lemma_first_named(names@, k + 1, name@);
            }
            return Some(names[k].1);
        }
        k += 1;
    }
    assert(names@.take(names@.len() as int) =~= names@);
    None
}

proof fn lemma_first_named(names: Seq<(Vec<char>, u32)>, k: int, name: Seq<char>)
    requires
        0 <= k <= names.len(),
        first_named(names.take(k)).contains_key(name),
    ensures
        first_named(names).contains_key(name),
        first_named(names)[name] == first_named(names.take(k))[name],
    decreases names.len(),
{
    if k == names.len() {
        assert(names.take(k) =~= names);
    } else {
        assert(names.drop_last().take(k) =~= names.take(k));
        lemma_first_named(names.drop_last(), k, name);
    }
}

/// The text without quotation marks at either end.
pub open spec fn unquoted(s: Seq<char>) -> Seq<char>
    decreases s.len(),
{
    if s.len() > 0 && s[0] == '"' {
        unquoted(from(s, 1))
    } else if s.len() > 0 && s.last() == '"' {
        unquoted(s.drop_last())
    } else {
        s
    }
}

/// The bare name of a struct type: without quotation marks and a leading kind.
pub open spec fn bare_name(llvm_name: Seq<char>) -> Seq<char> {
    let s = unquoted(llvm_name);
    match after_prefix(s, "struct."@) {
        Some(n) => n,
        None => match after_prefix(s, "union."@) {
            Some(n) => n,
            None => match after_prefix(s, "class."@) {
                Some(n) => n,
                None => s,
            },
        },
    }
}

fn unquote(s: &[char]) -> (r: &[char])
    ensures
        r@ == unquoted(s@),
{
    let mut rest: &[char] = s;
    while rest.len() > 0 && (rest[0] == '"' || rest[rest.len() - 1] == '"')
        invariant
            unquoted(rest@) == unquoted(s@),
        decreases rest@.len(),
    {
        let n: usize = rest.len();
        if rest[0] == '"' {
            rest = slice_subrange(rest, 1, n);
        } else {
            assert(rest@.drop_last() =~= rest@.subrange(0, n - 1));
            rest = slice_subrange(rest, 0, n - 1);
        }
    }
    rest
}

impl DebugInfo {
    /// The struct or union that an LLVM type name means.
    pub fn composite_by_llvm_name(&self, llvm_name: &str) -> (r: Option<u32>)
        ensures
            r == if self@.by_name.contains_key(bare_name(llvm_name@)) {
                Some(self@.by_name[bare_name(llvm_name@)])
            } else {
                None
            },
    {
        let name = chars_of(llvm_name);
        let s = unquote(name.as_slice());
        let p1 = chars_of("struct.");
        let p2 = chars_of("union.");
        let p3 = chars_of("class.");
        let bare: &[char] = match strip_prefix(s, p1.as_slice()) {
            Some(n) => n,
            None => match strip_prefix(s, p2.as_slice()) {
                Some(n) => n,
                None => match strip_prefix(s, p3.as_slice()) {
                    Some(n) => n,
                    None => s,
                },
            },
        };
        lookup_name(&self.by_name, bare)
    }

    fn put(&mut self, id: u32, n: DiNode)
        ensures
            final(self)@ == with_node(old(self)@, id, n@),
    {
        proof {
            lemma_nodes_insert(self.nodes@, id, n);
        }
        self.nodes.insert(id, n);
    }

    fn put_local(&mut self, id: u32, args: &[char])
        ensures
            final(self)@ == local_step(id, args@, old(self)@),
    {
        proof {
            reveal_strlit("type:");
            reveal_strlit("arg:");
            reveal_strlit("scope:");
        }
        if let Some(ty) = field_ref(args, "type:") {
            self.locals.insert(id, ty);
            if let Some(arg) = field_int(args, "arg:") {
                if let Some(scope) = field_ref(args, "scope:") {
                    let a: u32 = low_bits_of(arg);
                    proof {
                        lemma_params_insert(self.params@, scope, a, ty);
                    }
                    self.params.insert(key_of(scope, a), ty);
                }
            }
        }
    }

    fn put_composite(&mut self, id: u32, args: &[char])
        ensures
            final(self)@ == composite_step(id, args@, old(self)@),
    {
        proof {
            reveal_strlit("elements:");
            reveal_strlit("name:");
        }
        let n = DiNode::Composite {
            elements: field_ref(args, "elements:"),
            size_bytes: bits_to_bytes(args),
            align_bytes: bits_to_bytes_u32(args),
        };
        self.put(id, n);
        if let Some(name) = field_str(args, "name:") {
            if lookup_name(&self.by_name, name).is_none() {
                let ghost before = self.by_name@;
                self.by_name.push((copy_text(name), id));
                assert(self.by_name@.drop_last() =~= before);
            }
        }
    }
}

fn token_is(t: Option<&[char]>, word: &str) -> (r: bool)
    ensures
        r == (opt_view(t) == Some(word@)),
{
    match t {
        Some(x) => {
            let w = chars_of(word);
            same_text(x, w.as_slice())
        },
        None => false,
    }
}

fn begins(name: Option<&[char]>, word: &str) -> (r: bool)
    ensures
        r == (opt_view(name) is Some && stands_at(opt_view(name)->0, word@, 0)),
{
    match name {
        Some(x) => {
            let w = chars_of(word);
            matches(x, w.as_slice())
        },
        None => false,
    }
}

fn matches(s: &[char], pat: &[char]) -> (r: bool)
    ensures
        r == stands_at(s@, pat@, 0),
{
    crate::text::matches_at(s, pat, 0)
}

fn insert_derived(args: &[char]) -> (r: Option<DiNode>)
    ensures
        match r {
            Some(n) => derived_node(args@) == Some(n@),
            None => derived_node(args@) is None,
        },
{
    proof {
        reveal_strlit("tag:");
        reveal_strlit("baseType:");
        reveal_strlit("name:");
        reveal_strlit("offset:");
    }
    let tag = field_raw(args, "tag:");
    let base = field_ref(args, "baseType:");
    if token_is(tag, "DW_TAG_pointer_type") {
        let name = field_str(args, "name:");
        let reference = begins(name, "&");
        let writable = begins(name, "&mut");
        match base {
            Some(base) => Some(DiNode::Pointer { base, reference, writable }),
            None => None,
        }
    } else if token_is(tag, "DW_TAG_reference_type") {
        match base {
            Some(base) => Some(DiNode::Reference { base, writable: true }),
            None => None,
        }
    } else if token_is(tag, "DW_TAG_member") {
        match base {
            Some(base) => {
                let offset_bytes: u64 = match field_int(args, "offset:") {
                    Some(o) => if o > 0 {
                        o as u64 / 8
                    } else {
                        0
                    },
                    None => 0,
                };
                Some(DiNode::Member { offset_bytes, base })
            },
            None => None,
        }
    } else {
        Some(
            DiNode::Sized {
                size_bytes: bits_to_bytes(args),
                align_bytes: bits_to_bytes_u32(args),
                follows: base,
            },
        )
    }
}

impl Reading {
    spec fn state(&self) -> ParseView {
        ParseView {
            di: self.di@,
            subprograms: self.subprograms@,
            subroutines: self.subroutines@,
            tuples: tuples_view(self.tuples@),
        }
    }

    /// The list names each subprogram that has a signature.
    spec fn wf(&self) -> bool {
        forall|sp: u32| #[trigger] self.subprograms@.contains_key(sp) ==> self.named@.contains(sp)
    }

    fn signature(&mut self, id: u32, body: &[char])
        requires
            old(self).wf(),
        ensures
            final(self).wf(),
            final(self).state() == signature_step(id, body@, old(self).state()),
    {
        proof {
            reveal_strlit("type:");
            reveal_strlit("types:");
        }
        if let Some(args) = tag_body(body, "!DISubprogram(") {
            if let Some(ty) = field_ref(args, "type:") {
                let ghost before = self.named@;
                self.subprograms.insert(id, ty);
                self.named.push(id);
                proof {
                    assert forall|sp: u32| #[trigger]
                        self.subprograms@.contains_key(sp) implies self.named@.contains(sp) by {
                        if sp == id {
                            assert(self.named@[before.len() as int] == id);
                        } else {
                            assert(before.contains(sp));
                            let k = choose|k: int| 0 <= k < before.len() && before[k] == sp;
                            assert(self.named@[k] == sp);
                        }
                    }
                }
            }
        } else if let Some(args) = tag_body(body, "!DISubroutineType(") {
            if let Some(t) = field_ref(args, "types:") {
                self.subroutines.insert(id, t);
            }
        }
    }

    fn types(&mut self, id: u32, body: &[char])
        requires
            old(self).wf(),
        ensures
            final(self).wf(),
            final(self).state() == type_step(id, body@, old(self).state()),
    {
        proof {
            reveal_strlit("language:");
        }
        if let Some(args) = tag_body(body, "!DICompileUnit(") {
            let l = field_raw(args, "language:");
            if l.is_some() {
                self.di.rust = token_is(l, "DW_LANG_Rust");
            }
        } else if let Some(args) = tag_body(body, "!DILocalVariable(") {
            self.di.put_local(id, args);
        } else if let Some(args) = tag_body(body, "!DIDerivedType(") {
            if let Some(n) = insert_derived(args) {
                self.di.put(id, n);
            }
        } else if let Some(args) = tag_body(body, "!DICompositeType(") {
            self.di.put_composite(id, args);
        } else if let Some(args) = tag_body(body, "!DIBasicType(") {
            let n = DiNode::Sized {
                size_bytes: bits_to_bytes(args),
                align_bytes: bits_to_bytes_u32(args),
                follows: None,
            };
            self.di.put(id, n);
        } else {
            let open = chars_of("!{");
            if let Some(rest) = strip_prefix(body, open.as_slice()) {
                if let Some(inner) = strip_suffix(rest, '}') {
                    let list = positions(inner);
                    let members = present(&list);
                    self.di.put(id, DiNode::Tuple(members));
                    proof {
                        assert(tuples_view(self.tuples@.insert(id, list)) =~= tuples_view(
                            self.tuples@,
                        ).insert(id, list@));
                    }
                    self.tuples.insert(id, list);
                }
            }
        }
    }

    fn line(&mut self, line: &[char])
        requires
            old(self).wf(),
        ensures
            final(self).wf(),
            final(self).state() == line_step(line@, old(self).state()),
    {
        proof {
            reveal_strlit(" = ");
        }
        let bang = chars_of("!");
        let eq = chars_of(" = ");
        let distinct = chars_of("distinct ");
        if let Some(rest) = strip_prefix(trim_start(line), bang.as_slice()) {
            let n: usize = rest.len();
            if let Some(i) = find_from(rest, eq.as_slice(), 0) {
                assert(rest@.take(i as int) =~= rest@.subrange(0, i as int));
                if let Some(id) = parse_u32(slice_subrange(rest, 0, i)) {
                    let tail = slice_subrange(rest, i + 3, n);
                    let body: &[char] = match strip_prefix(tail, distinct.as_slice()) {
                        Some(b) => b,
                        None => tail,
                    };
                    self.signature(id, body);
                    self.types(id, body);
                }
            }
        }
    }

    fn text(&mut self, text: &[char])
        requires
            old(self).wf(),
        ensures
            final(self).wf(),
            final(self).state() == text_steps(text@, old(self).state()),
    {
        let mut rest: &[char] = text;
        while rest.len() > 0
            invariant
                self.wf(),
                text_steps(text@, old(self).state()) == text_steps(rest@, self.state()),
            decreases rest@.len(),
        {
            let n: usize = rest.len();
            match find_char(rest, '\n') {
                Some(i) => {
                    let line = slice_subrange(rest, 0, i);
                    assert(line@ =~= rest@.take(i as int));
                    let cut: &[char] = match strip_suffix(line, '\r') {
                        Some(c) => c,
                        None => line,
                    };
                    assert(cut@ == chomped(line@));
                    self.line(cut);
                    rest = slice_subrange(rest, i + 1, n);
                },
                None => {
                    self.line(rest);
                    return ;
                },
            }
        }
    }

    /// Type the parameters that only a signature types.
    fn complete(self) -> (di: DebugInfo)
        requires
            self.wf(),
        ensures
            di@ == (DiView { params: completed(self.state()), ..self.state().di }),
    {
        let ghost st = self.state();
        let Reading { mut di, subprograms, named, subroutines, tuples } = self;
        let ghost start = di;
        let mut j: usize = 0;
        while j < named.len()
            invariant
                j <= named@.len(),
                st.subprograms == subprograms@,
                st.subroutines == subroutines@,
                st.tuples == tuples_view(tuples@),
                st.di == start@,
                di.nodes == start.nodes,
                di.locals == start.locals,
                di.by_name == start.by_name,
                di.rust == start.rust,
                forall|sp: u32, k: u32|
                    #![trigger di@.params.contains_key((sp, k))]
                    di@.params.contains_key((sp, k)) <==> st.di.params.contains_key((sp, k)) || (
                    named@.take(j as int).contains(sp) && signature_type(st, sp, k) is Some),
                forall|sp: u32, k: u32|
                    #![trigger di@.params.contains_key((sp, k))]
                    di@.params.contains_key((sp, k)) ==> di@.params[(sp, k)] == completed(st)[(
                        sp,
                        k,
                    )],
            decreases named@.len() - j,
        {
            let sp: u32 = named[j];
            let ghost before = di@.params;
            let found: Option<&Vec<Option<u32>>> = match subprograms.get(&sp) {
                Some(s) => match subroutines.get(s) {
                    Some(t) => tuples.get(t),
                    None => None,
                },
                None => None,
            };
            if let Some(list) = found {
                fill(&mut di, sp, list, Ghost(st));
            }
            proof {
                assert(named@.take(j + 1) =~= named@.take(j as int).push(sp));
                assert forall|a: u32, k: u32|
                    #![trigger di@.params.contains_key((a, k))]
                    (di@.params.contains_key((a, k)) <==> st.di.params.contains_key((a, k)) || (
                    named@.take(j + 1).contains(a) && signature_type(st, a, k) is Some)) && (
                    di@.params.contains_key((a, k)) ==> di@.params[(a, k)] == completed(st)[(a, k)]) by {
                    crate::summary::perfn::lemma_push_contains(named@.take(j as int), sp, a);
                    assert(before.contains_key((a, k)) <==> st.di.params.contains_key((a, k)) || (
                    named@.take(j as int).contains(a) && signature_type(st, a, k) is Some));
                }
            }
            j += 1;
        }
        proof {
            assert(named@.take(named@.len() as int) =~= named@);
            assert(di@.params =~= completed(st)) by {
                assert forall|k: (u32, u32)| di@.params.contains_key(k) <==> completed(
                    st,
                ).contains_key(k) by {
                    assert(di@.params.contains_key((k.0, k.1)) <==> st.di.params.contains_key(
                        (k.0, k.1),
                    ) || (named@.contains(k.0) && signature_type(st, k.0, k.1) is Some));
                }
                assert forall|k: (u32, u32)| di@.params.contains_key(k) implies di@.params[k]
                    == completed(st)[k] by {
                    assert(di@.params.contains_key((k.0, k.1)));
                }
            }
        }
        di
    }
}

/// Enter the parameters of a subprogram that have no type yet.
fn fill(
    di: &mut DebugInfo,
    sp: u32,
    list: &Vec<Option<u32>>,
    Ghost(st): Ghost<ParseView>,
)
    requires
        st.subprograms.contains_key(sp),
        st.subroutines.contains_key(st.subprograms[sp]),
        st.tuples.contains_key(st.subroutines[st.subprograms[sp]]),
        st.tuples[st.subroutines[st.subprograms[sp]]] == list@,
    ensures
        final(di).nodes == old(di).nodes,
        final(di).locals == old(di).locals,
        final(di).by_name == old(di).by_name,
        final(di).rust == old(di).rust,
        forall|a: u32, k: u32|
            #![trigger final(di)@.params.contains_key((a, k))]
            final(di)@.params.contains_key((a, k)) <==> old(di)@.params.contains_key((a, k)) || (a
                == sp && signature_type(st, sp, k) is Some),
        forall|a: u32, k: u32|
            #![trigger final(di)@.params.contains_key((a, k))]
            final(di)@.params.contains_key((a, k)) ==> final(di)@.params[(a, k)] == if old(
                di)@.params.contains_key((a, k)) {
                old(di)@.params[(a, k)]
            } else {
                signature_type(st, sp, k)->0
            },
{
    let mut k: u32 = 1;
    let mut more: bool = 1 < list.len();
    while more
        invariant
            1 <= k,
            more ==> k < list@.len(),
            !more ==> (k >= list@.len() || k == u32::MAX),
            st.subprograms.contains_key(sp),
            st.subroutines.contains_key(st.subprograms[sp]),
            st.tuples.contains_key(st.subroutines[st.subprograms[sp]]),
            st.tuples[st.subroutines[st.subprograms[sp]]] == list@,
            di.nodes == old(di).nodes,
            di.locals == old(di).locals,
            di.by_name == old(di).by_name,
            di.rust == old(di).rust,
            forall|a: u32, q: u32|
                #![trigger di@.params.contains_key((a, q))]
                di@.params.contains_key((a, q)) <==> old(di)@.params.contains_key((a, q)) || (a
                    == sp && (q < k || !more && q <= k) && signature_type(st, sp, q) is Some),
            forall|a: u32, q: u32|
                #![trigger di@.params.contains_key((a, q))]
                di@.params.contains_key((a, q)) ==> di@.params[(a, q)] == if old(
                    di)@.params.contains_key((a, q)) {
                    old(di)@.params[(a, q)]
                } else {
                    signature_type(st, sp, q)->0
                },
        decreases u32::MAX - k, (if more { 1int } else { 0int }),
    {
        let ghost before = di@.params;
        if let Some(ty) = list[k as usize] {
            if di.param(sp, k).is_none() {
                proof {
                    lemma_params_insert(di.params@, sp, k, ty);
                }
                di.params.insert(key_of(sp, k), ty);
            }
        }
        if k == u32::MAX {
            more = false;
        } else {
            k += 1;
            more = (k as usize) < list.len();
        }
        proof {
            assert forall|a: u32, q: u32|
                #![trigger di@.params.contains_key((a, q))]
                di@.params.contains_key((a, q)) <==> old(di)@.params.contains_key((a, q)) || (a
                    == sp && (q < k || !more && q <= k) && signature_type(st, sp, q) is Some) by {
                assert(before.contains_key((a, q)) ==> di@.params.contains_key((a, q)));
            }
        }
    }
}

/// Read the type graph out of a module's text. Lines that are no definitions are passed
/// over.
pub fn parse(src: &str) -> (di: DebugInfo)
    ensures
        di@ == parsed(src@),
{
    let text = chars_of(src);
    let mut r = Reading {
        di: DebugInfo {
            nodes: HashMap::new(),
            params: HashMap::new(),
            locals: HashMap::new(),
            by_name: Vec::new(),
            rust: false,
        },
        subprograms: HashMap::new(),
        named: Vec::new(),
        subroutines: HashMap::new(),
        tuples: HashMap::new(),
    };
    proof {
        assert(r.di@.nodes =~= Map::empty());
        assert(r.di@.params =~= Map::empty());
        assert(r.state().tuples =~= Map::empty());
    }
    r.text(text.as_slice());
    r.complete()
}

impl DiView {
    /// The type that a parameter refers to, where it is a valid reference.
    pub open spec fn param_target(self, subprogram: u32, arg: u32) -> Option<u32> {
        if self.params.contains_key((subprogram, arg)) {
            match self.valid_ref(self.params[(subprogram, arg)]) {
                Some((base, _)) => Some(base),
                None => None,
            }
        } else {
            None
        }
    }

    /// The type that any pointer parameter points to.
    pub open spec fn param_any(self, subprogram: u32, arg: u32) -> Option<u32> {
        if self.params.contains_key((subprogram, arg)) {
            self.pointee(self.params[(subprogram, arg)])
        } else {
            None
        }
    }

    /// The size and alignment of what a raw pointer parameter points to.
    pub open spec fn param_raw(self, subprogram: u32, arg: u32) -> Option<(u64, u32)> {
        if self.params.contains_key((subprogram, arg)) {
            match self.raw_pointee(self.params[(subprogram, arg)]) {
                Some(base) => match self.sized_bytes(base, 16) {
                    Some(size) => Some((size, self.sized_align(base, 16))),
                    None => None,
                },
                None => None,
            }
        } else {
            None
        }
    }

    /// The contract of a member that is a valid reference.
    pub open spec fn member_contract(self, struct_id: u32, offset: u64) -> Option<RefContract> {
        match self.member_type(struct_id, offset) {
            Some(ty) => self.contract(self.valid_ref(ty)),
            None => None,
        }
    }

    /// The size and alignment of what a raw pointer member points to.
    pub open spec fn member_raw(self, struct_id: u32, offset: u64) -> Option<(u64, u32)> {
        match self.raw_member(struct_id, offset) {
            Some(target) => match self.sized_bytes(target, 16) {
                Some(size) => Some(
                    (
                        size,
                        if self.sized_align(target, 16) > natural_align(size) {
                            self.sized_align(target, 16)
                        } else {
                            natural_align(size)
                        },
                    ),
                ),
                None => None,
            },
            None => None,
        }
    }

    /// The type that a pointer or reference member points to.
    pub open spec fn member_target(self, struct_id: u32, offset: u64) -> Option<u32> {
        match self.member_type(struct_id, offset) {
            Some(ty) => self.pointee(ty),
            None => None,
        }
    }

    /// The struct or union of an LLVM type name.
    pub open spec fn named(self, llvm_name: Seq<char>) -> Option<u32> {
        if self.by_name.contains_key(bare_name(llvm_name)) {
            Some(self.by_name[bare_name(llvm_name)])
        } else {
            None
        }
    }

    /// The recorded alignment of the struct or union of an LLVM type name.
    pub open spec fn named_align(self, llvm_name: Seq<char>) -> Option<u32> {
        match self.named(llvm_name) {
            Some(id) => if self.nodes.contains_key(id) {
                match self.nodes[id] {
                    NodeView::Composite { align_bytes, .. } => align_bytes,
                    _ => None,
                }
            } else {
                None
            },
            None => None,
        }
    }
}

/// The alignment that a size of several elements allows: the largest power of two up to 16
/// that divides it.
pub fn size_align(size: u64) -> (a: u32)
    ensures
        a == natural_align(size),
{
    if size % 16 == 0 {
        16
    } else if size % 8 == 0 {
        8
    } else if size % 4 == 0 {
        4
    } else if size % 2 == 0 {
        2
    } else {
        1
    }
}

impl DebugInfo {
    /// The type that a parameter refers to, where it is a valid reference.
    pub fn param_pointee(&self, subprogram: u32, arg: u32) -> (r: Option<u32>)
        ensures
            r == self@.param_target(subprogram, arg),
    {
        match self.param(subprogram, arg) {
            Some(ty) => match self.valid_ref(ty) {
                Some((base, _)) => Some(base),
                None => None,
            },
            None => None,
        }
    }

    /// The recorded alignment of the struct or union that an LLVM type name means.
    pub fn composite_align_by_llvm_name(&self, llvm_name: &str) -> (r: Option<u32>)
        ensures
            r == self@.named_align(llvm_name@),
    {
        match self.composite_by_llvm_name(llvm_name) {
            Some(id) => match self.node(id) {
                Some(DiNode::Composite { align_bytes, .. }) => *align_bytes,
                _ => None,
            },
            None => None,
        }
    }
}

/// A pointer that the language does not keep valid gets no contract: a raw pointer in Rust,
/// any pointer that is not a reference in another language.
pub proof fn raw_pointers_get_no_contract(di: DiView, subprogram: u32, arg: u32)
    requires
        di.params.contains_key((subprogram, arg)),
        di.nodes.contains_key(di.params[(subprogram, arg)]),
        di.nodes[di.params[(subprogram, arg)]] matches NodeView::Pointer { reference, .. } && !(
        reference && di.rust),
    ensures
        di.param_ref(subprogram, arg) is None,
{
}

} // verus!
