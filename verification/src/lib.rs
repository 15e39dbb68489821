pub mod affine;
pub mod bitblast;
pub mod blast;
pub mod error;
pub mod exec;
pub mod expr;
pub mod gates;
pub mod ir;
pub mod llvm;
pub mod meaning;
pub mod mir;
pub mod names;
pub mod numbers;
pub mod sat;
pub mod smt;
pub mod sorted;
pub mod summary;
pub mod text;
