//! The Rust MIR frontend.

pub mod ast;
pub mod emit;
pub mod lower;
pub mod grammar;
pub mod laws;
pub mod module;
pub mod parser;
pub mod places;
pub mod signatures;
pub mod tokens;

use crate::error::{Error, ErrorView};
use crate::ir::Module;
use vstd::prelude::*;

verus! {

/// A place to read MIR from.
#[derive(Debug, Clone)]
pub struct MirInput {
    /// The path of a crate or of a MIR dump.
    pub path: String,
}

/// The Rust MIR frontend.
#[derive(Debug, Clone, Copy)]
pub struct MirFrontend;

impl Default for MirFrontend {
    fn default() -> (f: MirFrontend)
        ensures
            f == MirFrontend,
    {
        MirFrontend
    }
}

impl MirFrontend {
    /// The name of the frontend.
    pub fn name(&self) -> (s: &'static str)
        ensures
            s@ == "mir"@,
    {
        "mir"
    }

    /// Reading MIR from a crate is not implemented, for any input.
    pub fn lower(&self, _input: MirInput) -> (r: Result<Module, Error>)
        ensures
            r matches Err(e) && e@ == ErrorView::Unsupported(
                "MIR lowering is not implemented yet (planned milestone M5)"@,
            ),
    {
        Err(Error::unsupported("MIR lowering is not implemented yet (planned milestone M5)"))
    }
}

} // verus!
