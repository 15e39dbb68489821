//! A uniform interface over SMT backends, and the backend that decides nothing.

use crate::text::joined;
use vstd::prelude::*;

verus! {

/// An opaque sort handle vended by a solver.
#[derive(Debug, Clone, Copy, PartialEq, Eq, Hash, Structural)]
pub struct Sort(pub u32);

/// An opaque term handle vended by a solver.
#[derive(Debug, Clone, Copy, PartialEq, Eq, Hash, Structural)]
pub struct Term(pub u32);

/// The theory sort to declare.
#[derive(Debug, Clone, Copy, PartialEq, Eq, Structural)]
pub enum SortKind {
    /// A boolean.
    Bool,
    /// A bit-vector of the given width.
    BitVec(u32),
    /// An array from `index` width to `element` width.
    Array {
        /// Index bit width.
        index: u32,
        /// Element bit width.
        element: u32,
    },
}

/// The result of a satisfiability check.
#[derive(Debug, Clone, PartialEq, Eq)]
pub enum SatResult {
    /// Satisfiable.
    Sat,
    /// Unsatisfiable, with an unsat core where one was extracted.
    Unsat {
        /// The relevant subset of assertions.
        core: Vec<String>,
    },
    /// The solver could not decide.
    Unknown {
        /// Why: a timeout, incompleteness, an unsupported theory.
        reason: String,
    },
}

impl SatResult {
    /// How a report shows the result.
    pub open spec fn shown(&self) -> Seq<char> {
        match self {
            SatResult::Sat => "sat"@,
            SatResult::Unsat { core } => "unsat"@,
            SatResult::Unknown { reason } => "unknown ("@ + reason@ + ")"@,
        }
    }

    /// The result as a report shows it.
    pub fn render(&self) -> (text: String)
        ensures
            text@ == self.shown(),
    {
        match self {
            SatResult::Sat => "sat".to_owned(),
            SatResult::Unsat { .. } => "unsat".to_owned(),
            SatResult::Unknown { reason } => {
                let open = joined("unknown (", reason.as_str());
                joined(open.as_str(), ")")
            },
        }
    }
}

/// A push/pop-scoped SMT solver over the bit-vector, array and uninterpreted-function
/// theories. A backend promises nothing here of what it answers.
pub trait SmtSolver {
    /// Whether the solver can still vend a handle.
    spec fn can_declare(&self) -> bool;

    /// Whether another scope can be opened.
    spec fn can_push(&self) -> bool;

    /// A short backend name for reports.
    fn name(&self) -> &str;

    /// Declare a sort.
    fn declare_sort(&mut self, kind: SortKind) -> Sort
        requires
            old(self).can_declare(),
    ;

    /// Declare a fresh constant of the given sort, returning its term.
    fn declare_const(&mut self, name: &str, sort: Sort) -> Term
        requires
            old(self).can_declare(),
    ;

    /// Require that `term` (of boolean sort) holds.
    fn assert_term(&mut self, term: Term);

    /// Check satisfiability of the current assertion stack.
    fn check(&mut self) -> SatResult;

    /// Push an assertion scope.
    fn push(&mut self)
        requires
            old(self).can_push(),
    ;

    /// Pop an assertion scope.
    fn pop(&mut self);
}

/// A solver that declares everything and decides nothing.
#[derive(Debug)]
pub struct NullSolver {
    next: u32,
    scopes: usize,
}

impl Default for NullSolver {
    fn default() -> (s: NullSolver)
        ensures
            s.vended() == 0,
            s.depth() == 0,
    {
        NullSolver { next: 0, scopes: 0 }
    }
}

impl NullSolver {
    /// How many handles have been vended; the next handle bears this number.
    pub closed spec fn vended(&self) -> u32 {
        self.next
    }

    /// How many scopes are open.
    pub closed spec fn depth(&self) -> usize {
        self.scopes
    }

    /// Create a null solver.
    pub fn new() -> (s: NullSolver)
        ensures
            s.vended() == 0,
            s.depth() == 0,
    {
        NullSolver { next: 0, scopes: 0 }
    }

    fn fresh(&mut self) -> (id: u32)
        requires
            old(self).next < u32::MAX,
        ensures
            id == old(self).vended(),
            final(self).vended() == old(self).vended() + 1,
            final(self).depth() == old(self).depth(),
    {
        let id: u32 = self.next;
        self.next = self.next + 1;
        id
    }
}

impl SmtSolver for NullSolver {
    open spec fn can_declare(&self) -> bool {
        self.vended() < u32::MAX
    }

    open spec fn can_push(&self) -> bool {
        self.depth() < usize::MAX
    }

    fn name(&self) -> (n: &str)
        ensures
            n@ == "null"@,
    {
        "null"
    }

    fn declare_sort(&mut self, kind: SortKind) -> (s: Sort)
        ensures
            s.0 == old(self).vended(),
            final(self).vended() == old(self).vended() + 1,
            final(self).depth() == old(self).depth(),
    {
        Sort(self.fresh())
    }

    fn declare_const(&mut self, name: &str, sort: Sort) -> (t: Term)
        ensures
            t.0 == old(self).vended(),
            final(self).vended() == old(self).vended() + 1,
            final(self).depth() == old(self).depth(),
    {
        Term(self.fresh())
    }

    fn assert_term(&mut self, term: Term)
        ensures
            *final(self) == *old(self),
    {
    }

    fn check(&mut self) -> (r: SatResult)
        ensures
            *final(self) == *old(self),
            r matches SatResult::Unknown { reason } && reason@
                == "no decision procedure configured (NullSolver)"@,
    {
        SatResult::Unknown { reason: "no decision procedure configured (NullSolver)".to_owned() }
    }

    fn push(&mut self)
        ensures
            final(self).depth() == old(self).depth() + 1,
            final(self).vended() == old(self).vended(),
    {
        self.scopes = self.scopes + 1;
    }

    fn pop(&mut self)
        ensures
            final(self).depth() == if old(self).depth() == 0 {
                0
            } else {
                old(self).depth() - 1
            },
            final(self).vended() == old(self).vended(),
    {
        if self.scopes > 0 {
            self.scopes = self.scopes - 1;
        }
    }
}

} // verus!
