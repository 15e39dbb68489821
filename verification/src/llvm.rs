//! The LLVM-IR frontend.

pub mod addresses;
pub mod ast;
pub mod blocks;
pub mod calls;
pub mod checks;
pub mod debuginfo;
pub mod facts;
pub mod insts;
pub mod laws;
pub mod lower;
pub mod metadata;
pub mod module;
pub mod promises;
pub mod recovery;
pub mod slices;

use crate::error::Error;
use crate::ir::Module;
use crate::llvm::ast::{Definitions, LModule};
use crate::llvm::debuginfo::{parse, parsed};
use crate::llvm::module::{
    globals_of, ids_of, lower_module, lowerable, pointer_views, pointers_of, recorded_at_start,
    recorded_in, records,
};
use vstd::prelude::*;

verus! {

/// LLVM-IR source.
#[derive(Debug, Clone)]
pub struct LlvmInput {
    /// The text of the module.
    pub source: String,
    /// A name for messages, such as that of the file.
    pub name: String,
}

/// The LLVM-IR frontend.
#[derive(Debug, Clone, Copy)]
pub struct LlvmFrontend;

impl Default for LlvmFrontend {
    fn default() -> (f: LlvmFrontend)
        ensures
            f == LlvmFrontend,
    {
        LlvmFrontend
    }
}

impl LlvmFrontend {
    /// The name of the frontend.
    pub fn name(&self) -> (s: &'static str)
        ensures
            s@ == "llvm"@,
    {
        "llvm"
    }

    /// Lower an input, given the definitions that it holds. What is known of types beyond them
    /// is read from its text.
    pub fn lower(&self, input: LlvmInput, read: Definitions) -> (r: Result<Module, Error>)
        requires
            read.funcs@.len() <= u32::MAX,
            forall|i: int| 0 <= i < read.funcs@.len() ==> lowerable(#[trigger] read.funcs@[i]),
        ensures
            r matches Ok(module) && {
                &&& module.name@ == input.name@
                &&& module.globals@ == globals_of(read.globals@, read.deref_hints@)
                &&& pointer_views(module.global_fn_ptrs@) == pointers_of(
                    read.globals@,
                    ids_of(read.funcs@),
                )
                &&& recorded_in(module) == records(
                    recorded_at_start(read.unanalyzed@),
                    read.funcs@,
                    ids_of(read.funcs@),
                    parsed(input.source@),
                )
            },
    {
        let m = parse_module(input.source.as_str(), read);
        lower_module(&m, input.name.as_str())
    }
}

/// The module that definitions and a text make up: the debug information is read from the
/// text.
pub fn parse_module(src: &str, read: Definitions) -> (m: LModule)
    ensures
        m.funcs == read.funcs,
        m.unanalyzed == read.unanalyzed,
        m.globals == read.globals,
        m.deref_hints == read.deref_hints,
        m.debuginfo@ == parsed(src@),
{
    LModule {
        funcs: read.funcs,
        unanalyzed: read.unanalyzed,
        globals: read.globals,
        debuginfo: parse(src),
        deref_hints: read.deref_hints,
    }
}

} // verus!
