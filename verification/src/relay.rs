//! The plain side of the relay transport: which addresses go through a
//! relay, and the types that name the parties. How a relayed connection
//! moves bytes is not defined here.

use std::marker::PhantomData;
use vstd::prelude::*;

verus! {

/// What routing reads of one component of an address.
#[derive(Debug, Clone, Copy, PartialEq, Eq)]
pub enum Protocol {
    /// The component that marks the hop through a relay.
    P2pCircuit,
    /// Any other component.
    Other,
}

/// The pending upgrade of an inbound relayed connection, for a listener over
/// the transport `T`.
pub struct RelayedListenerUpgrade<T> {
    marker: PhantomData<T>,
}

/// The error of the relay transport. It carries nothing.
#[derive(Debug)]
pub struct RelayError {}

/// A connection to a remote that runs over a relay. It carries nothing.
pub struct RelayConnection {}

impl<T> RelayedListenerUpgrade<T> {
    /// An upgrade that has not been polled.
    pub fn new() -> Self {
        RelayedListenerUpgrade { marker: PhantomData }
    }
}

/// The address has a component that marks a hop through a relay.
pub open spec fn relayed(addr: Seq<Protocol>) -> bool {
    exists|i: int| 0 <= i < addr.len() && addr[i] is P2pCircuit
}

/// Whether an address goes through a relay: whether any of its components
/// says so. Such an address is left to the relay; every other address is
/// for the transport underneath.
pub fn is_relay_address(addr: &[Protocol]) -> (r: bool)
    ensures
        r == relayed(addr@),
{
    let mut i: usize = 0;
    while i < addr.len()
        invariant
            0 <= i <= addr@.len(),
            forall|j: int| 0 <= j < i ==> !(addr@[j] is P2pCircuit),
        decreases addr@.len() - i,
    {
        match addr[i] {
            Protocol::P2pCircuit => {
                return true;
            },
            Protocol::Other => {},
        }
        i += 1;
    }
    false
}

} // verus!
