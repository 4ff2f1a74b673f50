//! The execution context that the dispatcher hands to the operators.
use crate::stack::Stack;
use vstd::prelude::*;

verus! {

/// Protocol revisions, oldest first.
#[derive(Clone, Copy, Debug, PartialEq, Eq, Structural)]
pub enum Revision {
    Frontier,
    Homestead,
    Tangerine,
    Spurious,
    Byzantium,
    Constantinople,
    Petersburg,
    Istanbul,
    Berlin,
    London,
    Shanghai,
}

impl Revision {
    /// Position in the order of revisions.
    pub open spec fn rank(self) -> nat {
        match self {
            Revision::Frontier => 0,
            Revision::Homestead => 1,
            Revision::Tangerine => 2,
            Revision::Spurious => 3,
            Revision::Byzantium => 4,
            Revision::Constantinople => 5,
            Revision::Petersburg => 6,
            Revision::Istanbul => 7,
            Revision::Berlin => 8,
            Revision::London => 9,
            Revision::Shanghai => 10,
        }
    }

    pub fn ordinal(&self) -> (r: u8)
        ensures
            r == self.rank(),
    {
        match self {
            Revision::Frontier => 0,
            Revision::Homestead => 1,
            Revision::Tangerine => 2,
            Revision::Spurious => 3,
            Revision::Byzantium => 4,
            Revision::Constantinople => 5,
            Revision::Petersburg => 6,
            Revision::Istanbul => 7,
            Revision::Berlin => 8,
            Revision::London => 9,
            Revision::Shanghai => 10,
        }
    }

    /// Whether `self` is `other` or came after it.
    pub fn is_at_least(&self, other: Revision) -> (r: bool)
        ensures
            r == (self.rank() >= other.rank()),
    {
        self.ordinal() >= other.ordinal()
    }
}

/// The one failure an operator can report.
#[derive(Clone, Copy, Debug, PartialEq, Eq, Structural)]
pub enum StatusCode {
    /// The remaining resource went below zero.
    OutOfGas,
}

/// The state that one run of instructions mutates in place.
pub struct ExecutionState {
    pub stack: Stack,
    /// Remaining resource; negative once exhausted.
    pub gas_left: i64,
    pub evm_revision: Revision,
}

impl ExecutionState {
    pub fn new(gas_left: i64, evm_revision: Revision) -> (r: ExecutionState)
        ensures
            r.stack@ == Seq::<crate::word::Word>::empty(),
            r.gas_left == gas_left,
            r.evm_revision == evm_revision,
    {
        ExecutionState { stack: Stack::new(), gas_left, evm_revision }
    }
}

} // verus!
