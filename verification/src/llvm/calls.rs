//! Callees that are recognized by name.

use crate::ir::{BinOp, MemKind};
use crate::names::is_text;
use crate::text::{
    after_prefix, chars_of, find_char, find_from, first_at, first_char, matches_at, same_text,
    stands_at, strip_prefix,
};
use vstd::prelude::*;
use vstd::slice::slice_subrange;

verus! {

/// How a recognized allocator computes its byte size from the call arguments.
#[derive(Clone, Copy, PartialEq, Eq, Debug, Structural)]
pub enum AllocSize {
    /// The argument that gives the number of bytes.
    Bytes(usize),
    /// The arguments that give a count and an element size.
    Product(usize, usize),
}

/// The allocators that do not clear what they allocate, with the arguments that give the
/// size.
pub open spec fn alloc_size_of(callee: Seq<char>) -> Option<AllocSize> {
    if callee == "malloc"@ || callee == "kmalloc"@ || callee == "kmalloc_node"@ || callee
        == "__kmalloc"@ || callee == "vmalloc"@ || callee == "vmalloc_node"@ || callee
        == "kvmalloc"@ || callee == "kvmalloc_node"@ || callee == "__vmalloc"@ || callee
        == "kmalloc_noprof"@ || callee == "valloc"@ {
        Some(AllocSize::Bytes(0))
    } else if callee == "aligned_alloc"@ || callee == "memalign"@ {
        Some(AllocSize::Bytes(1))
    } else if callee == "kmalloc_array"@ || callee == "kvmalloc_array"@ || callee
        == "kmalloc_array_node"@ {
        Some(AllocSize::Product(0, 1))
    } else if callee == "reallocarray"@ {
        Some(AllocSize::Product(1, 2))
    } else {
        None
    }
}

/// The size arguments of a recognized allocator.
pub fn alloc_size(callee: &String) -> (r: Option<AllocSize>)
    ensures
        r == alloc_size_of(callee@),
{
    if is_text(callee, "malloc") || is_text(callee, "kmalloc") || is_text(callee, "kmalloc_node")
        || is_text(callee, "__kmalloc") || is_text(callee, "vmalloc") || is_text(
        callee,
        "vmalloc_node",
    ) || is_text(callee, "kvmalloc") || is_text(callee, "kvmalloc_node") || is_text(
        callee,
        "__vmalloc",
    ) || is_text(callee, "kmalloc_noprof") || is_text(callee, "valloc") {
        Some(AllocSize::Bytes(0))
    } else if is_text(callee, "aligned_alloc") || is_text(callee, "memalign") {
        Some(AllocSize::Bytes(1))
    } else if is_text(callee, "kmalloc_array") || is_text(callee, "kvmalloc_array") || is_text(
        callee,
        "kmalloc_array_node",
    ) {
        Some(AllocSize::Product(0, 1))
    } else if is_text(callee, "reallocarray") {
        Some(AllocSize::Product(1, 2))
    } else {
        None
    }
}

/// The position of the kernel buffer among the arguments of a copy from or to user memory.
pub open spec fn user_copy_arg(callee: Seq<char>) -> Option<usize> {
    if callee == "copy_from_user"@ || callee == "_copy_from_user"@ || callee
        == "__copy_from_user"@ || callee == "__copy_from_user_inatomic"@ || callee
        == "copy_from_user_nofault"@ {
        Some(0)
    } else if callee == "copy_to_user"@ || callee == "_copy_to_user"@ || callee
        == "__copy_to_user"@ || callee == "__copy_to_user_inatomic"@ || callee
        == "copy_to_user_nofault"@ {
        Some(1)
    } else {
        None
    }
}

/// The position of the kernel buffer among the arguments of a copy from or to user memory.
pub fn user_copy_kernel_arg(callee: &String) -> (r: Option<usize>)
    ensures
        r == user_copy_arg(callee@),
{
    if is_text(callee, "copy_from_user") || is_text(callee, "_copy_from_user") || is_text(
        callee,
        "__copy_from_user",
    ) || is_text(callee, "__copy_from_user_inatomic") || is_text(callee, "copy_from_user_nofault") {
        Some(0)
    } else if is_text(callee, "copy_to_user") || is_text(callee, "_copy_to_user") || is_text(
        callee,
        "__copy_to_user",
    ) || is_text(callee, "__copy_to_user_inatomic") || is_text(callee, "copy_to_user_nofault") {
        Some(1)
    } else {
        None
    }
}

/// The position of the freed pointer among the arguments of a deallocator.
pub open spec fn dealloc_arg(callee: Seq<char>, argc: nat) -> Option<usize> {
    if callee == "free"@ || callee == "kfree"@ || callee == "vfree"@ || callee == "kvfree"@
        || callee == "kfree_sensitive"@ || callee == "kzfree"@ || callee == "__kfree"@ || callee
        == "free_pages"@ || callee == "__free_pages"@ || callee == "kfree_const"@ {
        if 0 < argc {
            Some(0)
        } else {
            None
        }
    } else if callee == "kmem_cache_free"@ {
        if 1 < argc {
            Some(1)
        } else {
            None
        }
    } else {
        None
    }
}

/// The position of the freed pointer among the arguments of a deallocator.
pub fn dealloc_ptr_arg(callee: &String, argc: usize) -> (r: Option<usize>)
    ensures
        r == dealloc_arg(callee@, argc as nat),
{
    if is_text(callee, "free") || is_text(callee, "kfree") || is_text(callee, "vfree") || is_text(
        callee,
        "kvfree",
    ) || is_text(callee, "kfree_sensitive") || is_text(callee, "kzfree") || is_text(
        callee,
        "__kfree",
    ) || is_text(callee, "free_pages") || is_text(callee, "__free_pages") || is_text(
        callee,
        "kfree_const",
    ) {
        if 0 < argc {
            Some(0)
        } else {
            None
        }
    } else if is_text(callee, "kmem_cache_free") {
        if 1 < argc {
            Some(1)
        } else {
            None
        }
    } else {
        None
    }
}

/// Whether a name begins so.
pub fn starts(name: &String, prefix: &str) -> (r: bool)
    ensures
        r == stands_at(name@, prefix@, 0),
{
    let n = chars_of(name.as_str());
    let p = chars_of(prefix);
    matches_at(n.as_slice(), p.as_slice(), 0)
}

/// A name ends so.
pub open spec fn ends_with(name: Seq<char>, suffix: Seq<char>) -> bool {
    stands_at(name, suffix, name.len() - suffix.len())
}

fn ends(name: &String, suffix: &str) -> (r: bool)
    ensures
        r == ends_with(name@, suffix@),
{
    let n = chars_of(name.as_str());
    let p = chars_of(suffix);
    n.len() >= p.len() && matches_at(n.as_slice(), p.as_slice(), n.len() - p.len())
}

/// The barrier of an atomic helper: a release orders earlier writes, an acquire later reads.
pub open spec fn ordering_of(callee: Seq<char>) -> Option<u8> {
    if ends_with(callee, "_release"@) {
        Some(1)
    } else if ends_with(callee, "_acquire"@) {
        Some(2)
    } else {
        None
    }
}

/// The barrier of an atomic helper: a release orders earlier writes, an acquire later reads.
pub fn helper_barrier(callee: &String) -> (r: Option<u8>)
    ensures
        r == ordering_of(callee@),
{
    if ends(callee, "_release") {
        Some(1)
    } else if ends(callee, "_acquire") {
        Some(2)
    } else {
        None
    }
}

/// The bulk memory intrinsics.
pub open spec fn mem_kind_of(name: Seq<char>) -> Option<MemKind> {
    if stands_at(name, "llvm.memcpy"@, 0) {
        Some(MemKind::Copy)
    } else if stands_at(name, "llvm.memmove"@, 0) {
        Some(MemKind::Move)
    } else if stands_at(name, "llvm.memset"@, 0) {
        Some(MemKind::Fill)
    } else {
        None
    }
}

/// The bulk memory intrinsics.
pub fn mem_kind(name: &String) -> (r: Option<MemKind>)
    ensures
        r == mem_kind_of(name@),
{
    if starts(name, "llvm.memcpy") {
        Some(MemKind::Copy)
    } else if starts(name, "llvm.memmove") {
        Some(MemKind::Move)
    } else if starts(name, "llvm.memset") {
        Some(MemKind::Fill)
    } else {
        None
    }
}

/// The intrinsics without effect on memory.
pub open spec fn no_effect(name: Seq<char>) -> bool {
    stands_at(name, "llvm.lifetime."@, 0) || stands_at(name, "llvm.dbg."@, 0) || stands_at(
        name,
        "llvm.invariant."@,
        0,
    ) || stands_at(name, "llvm.expect"@, 0) || name == "llvm.assume"@
}

/// Whether an intrinsic has no effect on memory.
pub fn is_noop_intrinsic(name: &String) -> (r: bool)
    ensures
        r == no_effect(name@),
{
    starts(name, "llvm.lifetime.") || starts(name, "llvm.dbg.") || starts(name, "llvm.invariant.")
        || starts(name, "llvm.expect") || is_text(name, "llvm.assume")
}

/// The text up to the first dot.
pub open spec fn first_part(s: Seq<char>) -> Seq<char> {
    match first_char(s, '.') {
        Some(i) => s.take(i),
        None => s,
    }
}

/// The operation of `llvm.{s,u}{add,sub,mul}.with.overflow.iN`.
pub open spec fn overflow_op(callee: Seq<char>) -> Option<BinOp> {
    match after_prefix(callee, "llvm."@) {
        None => None,
        Some(kind) => if first_at(kind, ".with.overflow."@, 0) is None {
            None
        } else {
            let p = first_part(kind);
            if p == "sadd"@ || p == "uadd"@ {
                Some(BinOp::Add)
            } else if p == "ssub"@ || p == "usub"@ {
                Some(BinOp::Sub)
            } else if p == "smul"@ || p == "umul"@ {
                Some(BinOp::Mul)
            } else {
                None
            }
        },
    }
}

fn text_is(s: &[char], text: &str) -> (r: bool)
    ensures
        r == (s@ == text@),
{
    let t = chars_of(text);
    same_text(s, t.as_slice())
}

/// The operation of a checked-arithmetic intrinsic.
pub fn overflow_intrinsic_op(callee: &String) -> (r: Option<BinOp>)
    ensures
        r == overflow_op(callee@),
{
    let name = chars_of(callee.as_str());
    let prefix = chars_of("llvm.");
    let mark = chars_of(".with.overflow.");
    match strip_prefix(name.as_slice(), prefix.as_slice()) {
        None => None,
        Some(kind) => {
            if find_from(kind, mark.as_slice(), 0).is_none() {
                return None;
            }
            let p: &[char] = match find_char(kind, '.') {
                Some(i) => {
                    assert(kind@.take(i as int) =~= kind@.subrange(0, i as int));
                    slice_subrange(kind, 0, i)
                },
                None => kind,
            };
            if text_is(p, "sadd") || text_is(p, "uadd") {
                Some(BinOp::Add)
            } else if text_is(p, "ssub") || text_is(p, "usub") {
                Some(BinOp::Sub)
            } else if text_is(p, "smul") || text_is(p, "umul") {
                Some(BinOp::Mul)
            } else {
                None
            }
        },
    }
}

} // verus!
