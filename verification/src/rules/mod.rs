//! The tallying rules and what they return.

pub mod approval;
pub mod borda;
pub mod liquid;
pub mod majority;

use crate::address_map::AddressMap;
use crate::vote_data::Votes;
use vstd::prelude::*;

pub use approval::Approval;
pub use borda::Borda;
pub use liquid::LiquidDemocracy;
pub use majority::Majority;

verus! {

/// What a rule returns: a score for each target that received any, and for
/// the liquid rule also the influence of each node that can vote.
#[derive(Debug)]
pub enum VoteOutcome {
    SimpleOutcome(AddressMap<u64>),
    OutcomeAndInfluences(AddressMap<u64>, AddressMap<u64>),
}

impl VoteOutcome {
    /// The scores of the outcome.
    pub open spec fn scores(self) -> AddressMap<u64> {
        match self {
            VoteOutcome::SimpleOutcome(scores) => scores,
            VoteOutcome::OutcomeAndInfluences(scores, _) => scores,
        }
    }

    /// The influences of the outcome, where it has any.
    pub open spec fn influences(self) -> Option<AddressMap<u64>> {
        match self {
            VoteOutcome::SimpleOutcome(_) => None,
            VoteOutcome::OutcomeAndInfluences(_, influences) => Some(influences),
        }
    }

    /// The scores of the outcome.
    pub fn get_scores(&self) -> (r: &AddressMap<u64>)
        ensures
            *r == self.scores(),
    {
        match self {
            VoteOutcome::SimpleOutcome(scores) => scores,
            VoteOutcome::OutcomeAndInfluences(scores, _) => scores,
        }
    }

    /// The influences of the outcome, where it has any.
    pub fn get_influences(&self) -> (r: Option<&AddressMap<u64>>)
        ensures
            r is Some <==> self.influences() is Some,
            r is Some ==> *r.unwrap() == self.influences().unwrap(),
    {
        match self {
            VoteOutcome::SimpleOutcome(_) => None,
            VoteOutcome::OutcomeAndInfluences(_, influences) => Some(influences),
        }
    }
}

/// A tallying rule. The result is `None` where a score would not fit the
/// fixed-point range; each rule says when that is.
pub trait Rule {
    fn calculate(data: &Votes) -> (r: Option<VoteOutcome>)
        requires
            data.wf(),
    ;
}

} // verus!
