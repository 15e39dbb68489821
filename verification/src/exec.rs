//! Symbolic execution of functions.

pub mod check;
pub mod classify;
pub mod drive;
pub mod entry;
pub mod eval;
pub mod effects;
pub mod evaluation;
pub mod flow;
pub mod havoc;
pub mod joins;
pub mod laws;
pub mod loops;
pub mod machine;
pub mod merge;
pub mod replay;
pub mod report;
pub mod results;
pub mod run;
pub mod shapes;
pub mod solver;
pub mod sound;
pub mod start;
pub mod step;
pub mod value;
