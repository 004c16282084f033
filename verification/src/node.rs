//! What a participant has to offer to be put into a graph.

use crate::address::Address;
use crate::address_map::AddressMap;
use vstd::prelude::*;

verus! {

/// A participant: it has an address, and it may have votes.
pub trait Node {
    /// The address of the participant.
    fn address(&self) -> Address;

    /// The weights that the participant gives to its targets, if it votes.
    fn targets(&self) -> Option<AddressMap<u64>>;
}

} // verus!
