//! A participant whose address is the SHA-256 digest of its name.

use crate::address::Address;
use crate::address_map::AddressMap;
use crate::node::Node;
use sha2::Digest;
use vstd::prelude::*;

verus! {

/// The SHA-256 digest of the UTF-8 bytes of `text`.
pub uninterp spec fn sha256(text: Seq<char>) -> Seq<u8>;

/// Calls `sha2::Sha256::digest` on the bytes of `text`. The claim is that the
/// thirty-two bytes that come back are the digest that `sha256` names: they
/// depend on the text alone.
#[verifier::external_body]
fn digest(text: &String) -> (r: [u8; 32])
    ensures
        r@ == sha256(text@),
{
    sha2::Sha256::digest(text.as_bytes()).into()
}

/// A participant that is known by its name and does not vote.
pub struct SimpleNode {
    pub name: String,
}

impl SimpleNode {
    /// The participant with the name `name`.
    pub fn new(name: String) -> (r: SimpleNode)
        ensures
            r.name == name,
    {
        SimpleNode { name }
    }
}

impl Node for SimpleNode {
    /// The digest of the name.
    fn address(&self) -> (r: Address)
        ensures
            r@ == sha256(self.name@),
    {
        Address::from_bytes(digest(&self.name))
    }

    /// A simple node does not vote.
    fn targets(&self) -> (r: Option<AddressMap<u64>>)
        ensures
            r is None,
    {
        None
    }
}

} // verus!
