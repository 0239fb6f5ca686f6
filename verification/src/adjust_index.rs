use vstd::arithmetic::div_mod::{
    lemma_add_mod_noop, lemma_mod_add_multiples_vanish, lemma_mod_self_0, lemma_small_mod,
};
use vstd::prelude::*;

verus! {

/// Which neighbour of a position is asked for.
#[derive(Clone, Copy, Debug, PartialEq, Eq, Structural)]
pub enum AdjustDirection {
    Next,
    Previous,
}

/// One step from `index` round a ring of `len` positions.
pub open spec fn cycled(index: int, len: int, direction: AdjustDirection) -> int {
    match direction {
        AdjustDirection::Next => (index + 1) % len,
        AdjustDirection::Previous => (index + len - 1) % len,
    }
}

/// One step from `index` along a row of `len` positions that ends at
/// `len - 1` and at zero.
pub open spec fn stepped(index: int, len: int, direction: AdjustDirection) -> int {
    match direction {
        AdjustDirection::Next => if index + 1 < len - 1 {
            index + 1
        } else {
            len - 1
        },
        AdjustDirection::Previous => if index > 0 {
            index - 1
        } else {
            0
        },
    }
}

/// On a position inside the ring a step wraps only at the two ends.
pub proof fn lemma_cycled_inside(index: int, len: int, direction: AdjustDirection)
    requires
        0 <= index < len,
    ensures
        cycled(index, len, direction) == match direction {
            AdjustDirection::Next => if index + 1 == len {
                0
            } else {
                index + 1
            },
            AdjustDirection::Previous => if index == 0 {
                len - 1
            } else {
                index - 1
            },
        },
{
    match direction {
        AdjustDirection::Next => {
            if index + 1 == len {
                lemma_mod_self_0(len);
            } else {
                lemma_small_mod((index + 1) as nat, len as nat);
            }
        },
        AdjustDirection::Previous => {
            if index == 0 {
                lemma_small_mod((len - 1) as nat, len as nat);
            } else {
                lemma_mod_add_multiples_vanish(index - 1, len);
                lemma_small_mod((index - 1) as nat, len as nat);
            }
        },
    }
}

/// Moves `index` one step round a ring of `len` positions: past the last
/// position comes the first, before the first the last.
pub fn cycle_index(index: usize, len: usize, direction: AdjustDirection) -> (result: usize)
    requires
        len > 0,
    ensures
        result == cycled(index as int, len as int, direction),
        result < len,
{
    let at = index % len;
    proof {
        let i = index as int;
        let n = len as int;
        lemma_small_mod(at as nat, len as nat);
        match direction {
            AdjustDirection::Next => {
                lemma_add_mod_noop(i, 1, n);
                lemma_add_mod_noop(at as int, 1, n);
            },
            AdjustDirection::Previous => {
                lemma_add_mod_noop(i, n - 1, n);
                lemma_add_mod_noop(at as int, n - 1, n);
            },
        }
        lemma_cycled_inside(at as int, n, direction);
    }
    match direction {
        AdjustDirection::Next => if at + 1 == len {
            0
        } else {
            at + 1
        },
        AdjustDirection::Previous => if at == 0 {
            len - 1
        } else {
            at - 1
        },
    }
}

/// Moves `index` one step along a row of `len` positions and stops at its
/// ends: forward never past `len - 1`, backward never below zero.
pub fn step_index(index: usize, len: usize, direction: AdjustDirection) -> (result: usize)
    requires
        direction == AdjustDirection::Next ==> len > 0,
    ensures
        result == stepped(index as int, len as int, direction),
{
    match direction {
        AdjustDirection::Next => if index < len - 1 {
            index + 1
        } else {
            len - 1
        },
        AdjustDirection::Previous => if index > 0 {
            index - 1
        } else {
            0
        },
    }
}

} // verus!
