//! Errors of learning and solving.

use vstd::prelude::*;

verus! {

/// Why building a model or collapsing a grid did not succeed.
#[derive(Debug, Clone, Copy, PartialEq, Eq, Structural)]
pub enum WfcError {
    /// Some undetermined cell has no tile that agrees with its committed
    /// neighbours. A caller may retry with another seed or other constraints.
    Contradiction,
    /// The input is malformed: a degenerate dimension, a buffer of the wrong
    /// length, tile 0 used as data, or a seed tile the model never observed.
    InvalidInput,
}

} // verus!
