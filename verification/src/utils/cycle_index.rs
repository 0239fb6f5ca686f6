use vstd::prelude::*;

use crate::adjust_index::{cycled, AdjustDirection};

verus! {

/// The way round a ring.
#[derive(Clone, Copy, Debug, PartialEq, Eq, Structural)]
pub enum CycleDirection {
    Forward,
    Backward,
}

impl CycleDirection {
    /// The same direction as a choice of neighbour.
    pub open spec fn adjust(self) -> AdjustDirection {
        match self {
            CycleDirection::Forward => AdjustDirection::Next,
            CycleDirection::Backward => AdjustDirection::Previous,
        }
    }
}

/// Moves `index` in place one step round a ring of `len` positions.
pub fn cycle_index(index: &mut usize, len: usize, direction: CycleDirection)
    requires
        len > 0,
    ensures
        *final(index) == cycled(*old(index) as int, len as int, direction.adjust()),
        *final(index) < len,
{
    *index = match direction {
        CycleDirection::Forward => crate::adjust_index::cycle_index(
            *index,
            len,
            AdjustDirection::Next,
        ),
        CycleDirection::Backward => crate::adjust_index::cycle_index(
            *index,
            len,
            AdjustDirection::Previous,
        ),
    };
}

} // verus!
