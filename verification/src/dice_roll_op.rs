//! The selection policies a dice group may carry: keep the highest or the
//! lowest `n` dice. A group without a policy keeps every die.

use vstd::prelude::*;

verus! {

/// Keep the highest `n` rolled dice, or the lowest `n`; the discarded dice
/// still appear in the outcome, marked as discarded.
#[derive(Clone, Copy, Debug, PartialEq, Eq, Structural)]
pub enum DiceRollOp {
    KeepHighest(u32),
    KeepLowest(u32),
}

impl DiceRollOp {
    /// How many dice the policy keeps.
    pub open spec fn keep_n(self) -> u32 {
        match self {
            DiceRollOp::KeepHighest(n) => n,
            DiceRollOp::KeepLowest(n) => n,
        }
    }

    /// Whether selection ranks dice from the highest value down.
    pub open spec fn is_descending(self) -> bool {
        self is KeepHighest
    }

    /// A policy is well formed when it keeps at least one die.
    pub open spec fn wf(self) -> bool {
        self.keep_n() >= 1
    }
}

} // verus!
