//! The random scalars that the surrounding protocol supplies.

use crate::field::XWord;
use vstd::prelude::*;

verus! {

/// The names of the six challenges of the RAM table.
#[derive(Clone, Copy, Debug, PartialEq, Eq, Hash, Structural)]
pub enum RamTableChallengeId {
    BezoutRelationIndeterminate,
    ProcessorPermIndeterminate,
    ClkWeight,
    RamvWeight,
    RampWeight,
    AllClockJumpDifferencesMultiPermIndeterminate,
}

impl RamTableChallengeId {
    /// The number of challenges.
    pub const COUNT: usize = 6;

    /// The place of the challenge in the order of their declaration.
    pub open spec fn spec_index(self) -> usize {
        match self {
            RamTableChallengeId::BezoutRelationIndeterminate => 0,
            RamTableChallengeId::ProcessorPermIndeterminate => 1,
            RamTableChallengeId::ClkWeight => 2,
            RamTableChallengeId::RamvWeight => 3,
            RamTableChallengeId::RampWeight => 4,
            RamTableChallengeId::AllClockJumpDifferencesMultiPermIndeterminate => 5,
        }
    }

    /// The place of the challenge in the order of their declaration.
    pub fn index(self) -> (i: usize)
        ensures
            i == self.spec_index(),
            i < Self::COUNT,
    {
        match self {
            RamTableChallengeId::BezoutRelationIndeterminate => 0,
            RamTableChallengeId::ProcessorPermIndeterminate => 1,
            RamTableChallengeId::ClkWeight => 2,
            RamTableChallengeId::RamvWeight => 3,
            RamTableChallengeId::RampWeight => 4,
            RamTableChallengeId::AllClockJumpDifferencesMultiPermIndeterminate => 5,
        }
    }
}

/// The six challenges of the RAM table.
#[derive(Clone, Copy, Debug, PartialEq, Eq, Structural)]
pub struct RamTableChallenges {
    /// The point in which the Bézout relation establishing contiguous
    /// memory regions is queried.
    pub bezout_relation_indeterminate: XWord,
    /// The point of evaluation for the row set equality argument between
    /// the RAM table and the processor table.
    pub processor_perm_indeterminate: XWord,
    /// The weight of the clock in the compression of a row.
    pub clk_weight: XWord,
    /// The weight of the memory value in the compression of a row.
    pub ramv_weight: XWord,
    /// The weight of the memory address in the compression of a row.
    pub ramp_weight: XWord,
    /// The point of evaluation for accumulating all clock jump differences
    /// into a running product.
    pub all_clock_jump_differences_multi_perm_indeterminate: XWord,
}

impl RamTableChallenges {
    /// Whether all six challenges are well-formed extension field elements.
    pub open spec fn wf(self) -> bool {
        &&& self.bezout_relation_indeterminate.wf()
        &&& self.processor_perm_indeterminate.wf()
        &&& self.clk_weight.wf()
        &&& self.ramv_weight.wf()
        &&& self.ramp_weight.wf()
        &&& self.all_clock_jump_differences_multi_perm_indeterminate.wf()
    }

    /// The challenge of the given name.
    pub open spec fn challenge(self, id: RamTableChallengeId) -> XWord {
        match id {
            RamTableChallengeId::BezoutRelationIndeterminate => self.bezout_relation_indeterminate,
            RamTableChallengeId::ProcessorPermIndeterminate => self.processor_perm_indeterminate,
            RamTableChallengeId::ClkWeight => self.clk_weight,
            RamTableChallengeId::RamvWeight => self.ramv_weight,
            RamTableChallengeId::RampWeight => self.ramp_weight,
            RamTableChallengeId::AllClockJumpDifferencesMultiPermIndeterminate => {
                self.all_clock_jump_differences_multi_perm_indeterminate
            },
        }
    }

    /// The challenge of the given name.
    pub fn get_challenge(&self, id: RamTableChallengeId) -> (c: XWord)
        ensures
            c == self.challenge(id),
            self.wf() ==> c.wf(),
    {
        match id {
            RamTableChallengeId::BezoutRelationIndeterminate => self.bezout_relation_indeterminate,
            RamTableChallengeId::ProcessorPermIndeterminate => self.processor_perm_indeterminate,
            RamTableChallengeId::ClkWeight => self.clk_weight,
            RamTableChallengeId::RamvWeight => self.ramv_weight,
            RamTableChallengeId::RampWeight => self.ramp_weight,
            RamTableChallengeId::AllClockJumpDifferencesMultiPermIndeterminate => {
                self.all_clock_jump_differences_multi_perm_indeterminate
            },
        }
    }
}

} // verus!
