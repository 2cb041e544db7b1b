//! The plain values every other module speaks of.

use std::sync::Arc;
use vstd::prelude::*;

verus! {

/// A decision variable of the problem, named by its index.
#[derive(Clone, Copy, Debug, PartialEq, Eq, Hash)]
pub struct Variable(pub usize);

impl Variable {
    /// The index of this variable.
    pub fn id(self) -> (id: usize)
        ensures
            id == self.0,
    {
        self.0
    }
}

/// The assignment of a value to a variable.
#[derive(Clone, Copy, Debug, PartialEq, Eq, Hash)]
pub struct Decision {
    pub variable: Variable,
    pub value: isize,
}

/// How a diagram is compiled.
#[derive(Clone, Copy, Debug, PartialEq, Eq, Hash)]
pub enum CompilationType {
    /// Every layer is developed in full, whatever its width.
    Exact,
    /// Layers wider than the maximum width are merged down to it.
    Relaxed,
    /// Layers wider than the maximum width are cut down to it.
    Restricted,
}

/// Why a compilation did not complete.
#[derive(Clone, Copy, Debug, PartialEq, Eq, Hash)]
pub enum Reason {
    /// The cutoff asked the compilation to stop.
    CutoffOccurred,
}

/// What a completed compilation reports.
#[derive(Clone, Copy, Debug, PartialEq, Eq, Hash)]
pub struct Completion {
    /// Whether the best value of the diagram is the optimum of the subproblem.
    pub is_exact: bool,
    /// The length of the longest path of the diagram, if it has any.
    pub best_value: Option<isize>,
}

/// A residual subproblem: a state, the value of the best known path that
/// reaches it, the decisions along that path, and an upper bound on the value
/// of any solution that goes through it.
#[derive(Clone, Debug)]
pub struct SubProblem<T> {
    pub state: Arc<T>,
    pub value: isize,
    pub path: Vec<Decision>,
    pub ub: isize,
}

/// The sum of two machine integers, held to the range of `isize`.
pub open spec fn sat_add_spec(a: isize, b: isize) -> isize {
    if a + b > isize::MAX {
        isize::MAX
    } else if a + b < isize::MIN {
        isize::MIN
    } else {
        (a + b) as isize
    }
}

/// The difference of two machine integers, held to the range of `isize`.
pub open spec fn sat_sub_spec(a: isize, b: isize) -> isize {
    if a - b > isize::MAX {
        isize::MAX
    } else if a - b < isize::MIN {
        isize::MIN
    } else {
        (a - b) as isize
    }
}

/// The larger of two integers.
pub open spec fn max_spec(a: isize, b: isize) -> isize {
    if a >= b {
        a
    } else {
        b
    }
}

/// The smaller of two integers.
pub open spec fn min_spec(a: isize, b: isize) -> isize {
    if a <= b {
        a
    } else {
        b
    }
}

/// Adds without overflow: a sum beyond either end of `isize` is that end.
#[verifier::when_used_as_spec(sat_add_spec)]
pub fn sat_add(a: isize, b: isize) -> (sum: isize)
    ensures
        sum == sat_add_spec(a, b),
{
    if b > 0 && a > isize::MAX - b {
        isize::MAX
    } else if b < 0 && a < isize::MIN - b {
        isize::MIN
    } else {
        a + b
    }
}

/// Subtracts without overflow: a difference beyond either end of `isize` is
/// that end.
#[verifier::when_used_as_spec(sat_sub_spec)]
pub fn sat_sub(a: isize, b: isize) -> (difference: isize)
    ensures
        difference == sat_sub_spec(a, b),
{
    if b < 0 && a > isize::MAX + b {
        isize::MAX
    } else if b > 0 && a < isize::MIN + b {
        isize::MIN
    } else {
        a - b
    }
}

} // verus!
