use vstd::prelude::*;

use crate::adjust_index::{stepped, AdjustDirection};

verus! {

/// The way along a row.
#[derive(Clone, Copy, Debug, PartialEq, Eq, Structural)]
pub enum StepDirection {
    Forward,
    Backward,
}

impl StepDirection {
    /// The same direction as a choice of neighbour.
    pub open spec fn adjust(self) -> AdjustDirection {
        match self {
            StepDirection::Forward => AdjustDirection::Next,
            StepDirection::Backward => AdjustDirection::Previous,
        }
    }
}

/// The position one step from `index` along a row of `len` positions, which
/// stops at both ends.
pub fn step_index(index: usize, len: usize, direction: StepDirection) -> (result: usize)
    requires
        direction == StepDirection::Forward ==> len > 0,
    ensures
        result == stepped(index as int, len as int, direction.adjust()),
{
    match direction {
        StepDirection::Forward => crate::adjust_index::step_index(index, len, AdjustDirection::Next),
        StepDirection::Backward => crate::adjust_index::step_index(
            index,
            len,
            AdjustDirection::Previous,
        ),
    }
}

} // verus!
