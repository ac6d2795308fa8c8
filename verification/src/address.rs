//! Principals: the parties that hold units, borrow and invest.

use vstd::prelude::*;

verus! {

/// What a principal is on the network.
#[derive(Clone, Copy, Debug, PartialEq, Eq, Structural)]
pub enum AddressKind {
    /// An account controlled by a key pair.
    Account,
    /// A deployed contract.
    Contract,
}

/// A principal, identified by its kind and the 256 bits of its key or hash.
///
/// Two addresses are the same principal exactly when all three fields agree.
#[derive(Clone, Copy, Debug, PartialEq, Eq, Structural)]
pub struct Address {
    pub kind: AddressKind,
    /// The upper 128 bits of the identifier.
    pub high: u128,
    /// The lower 128 bits of the identifier.
    pub low: u128,
}

impl Address {
    /// The account with the given identifier.
    pub fn account(high: u128, low: u128) -> (a: Address)
        ensures
            a == (Address { kind: AddressKind::Account, high, low }),
    {
        Address { kind: AddressKind::Account, high, low }
    }

    /// The contract with the given identifier.
    pub fn contract(high: u128, low: u128) -> (a: Address)
        ensures
            a == (Address { kind: AddressKind::Contract, high, low }),
    {
        Address { kind: AddressKind::Contract, high, low }
    }
}

} // verus!
