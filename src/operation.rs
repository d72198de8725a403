//! The operations that a randomized exercise of the heap draws from.
use vstd::prelude::*;

verus! {

/// One step of a randomized exercise: two weights of insertion, then the
/// four queries.
#[derive(Debug, Clone, Copy, PartialEq, Eq, Structural)]
pub enum Operation {
    Insert,
    Insert2,
    PeekMin,
    PeekMax,
    PopMin,
    PopMax,
}

/// The operation numbered `num`, counting from zero in declaration order.
pub open spec fn operation_of(num: i32) -> Option<Operation> {
    if num == 0 {
        Some(Operation::Insert)
    } else if num == 1 {
        Some(Operation::Insert2)
    } else if num == 2 {
        Some(Operation::PeekMin)
    } else if num == 3 {
        Some(Operation::PeekMax)
    } else if num == 4 {
        Some(Operation::PopMin)
    } else if num == 5 {
        Some(Operation::PopMax)
    } else {
        None
    }
}

impl Operation {
    /// The operation numbered `num`, or `None` past the last one.
    pub fn from(num: i32) -> (r: Option<Operation>)
        ensures
            r == operation_of(num),
    {
        match num {
            0 => Some(Operation::Insert),
            1 => Some(Operation::Insert2),
            2 => Some(Operation::PeekMin),
            3 => Some(Operation::PeekMax),
            4 => Some(Operation::PopMin),
            5 => Some(Operation::PopMax),
            _ => None,
        }
    }
}

} // verus!
