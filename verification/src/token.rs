//! The property registry and its units: registration, the per-property
//! balances, and transfers that deduct the protocol fee.

use vstd::prelude::*;
use crate::address::Address;
use crate::arith::{protocol_fee, quotient, trunc_div};
use crate::auth::Authorizer;
use crate::error::Error;
use crate::ledger::{
    balances_of, credited, entries_wf, supply_in, transfer_outcome, transferred, units_in, Ledger,
};

verus! {

/// The highest protocol fee that can be configured, in basis points.
pub const MAX_FEE_BPS: u32 = 1000;

/// A registered property. Nothing in it changes after registration.
#[derive(Clone, Debug, PartialEq, Eq)]
pub struct Property {
    pub id: u128,
    /// The principal that registered the property and received its units.
    pub builder: Address,
    pub name: String,
    /// The valuation the builder is looking for.
    pub wanted: i128,
    /// The part of it the builder already has.
    pub have: i128,
    /// The number of units, fixed at registration.
    pub total_supply: i128,
    pub builder_name: String,
    pub external_ref: String,
    pub ticker: String,
}

/// The record of a transfer, as it is announced to observers.
#[derive(Clone, Copy, Debug, PartialEq, Eq, Structural)]
pub struct TransferReceipt {
    pub from: Address,
    pub to: Address,
    pub property_id: u128,
    /// The units that left `from`.
    pub amount: i128,
    /// The part of them that went to the fee wallet.
    pub fee: i128,
}

/// The price of one unit: the wanted valuation per unit of supply.
pub open spec fn price_of(property: Property) -> int {
    trunc_div(property.wanted as int, property.total_supply as int)
}

/// How many times the wanted valuation is already covered.
pub open spec fn percentual_of(property: Property) -> int {
    trunc_div(property.have as int, property.wanted as int)
}

/// Whether `a / b` can be computed: `b` is not zero and the quotient fits.
pub open spec fn divisible(a: i128, b: i128) -> bool {
    b != 0 && !(a == i128::MIN && b == -1)
}

/// The state of the property token: its configuration, the registered
/// properties and the ledger of their units.
pub struct RealEstateTokenContract {
    /// The only principal that may register properties and set the fee.
    pub admin: Address,
    pub name: String,
    pub symbol: String,
    pub decimal: u32,
    /// The fee deducted from each transfer, in basis points.
    pub protocol_fee_bps: u32,
    /// The holder that receives the fees.
    pub fee_wallet: Address,
    /// The properties in order of registration; the first has id 1.
    pub properties: Vec<Property>,
    pub ledger: Ledger,
}

impl RealEstateTokenContract {
    /// Whether a property with this id is registered.
    pub open spec fn has_property(&self, property_id: u128) -> bool {
        1 <= property_id <= self.properties@.len()
    }

    /// The property with this id.
    pub open spec fn property(&self, property_id: u128) -> Property
        recommends
            self.has_property(property_id),
    {
        self.properties@[property_id - 1]
    }

    /// The supply fixed for this id at registration; zero for an id that
    /// is not registered.
    pub open spec fn total_supply_of(&self, property_id: u128) -> int {
        if self.has_property(property_id) {
            self.property(property_id).total_supply as int
        } else {
            0
        }
    }

    /// The holdings of every property add up to the supply fixed at its
    /// registration, and nobody holds units of anything else.
    pub open spec fn conserved(&self) -> bool {
        forall|property_id: u128|
            #[trigger] supply_in(self.ledger@, property_id) == self.total_supply_of(property_id)
    }

    /// The state is well formed: ids count up from 1, every property has a
    /// positive supply and wanted valuation, the fee is within its limit,
    /// and units are conserved.
    pub open spec fn wf(&self) -> bool {
        &&& self.ledger.wf()
        &&& self.protocol_fee_bps <= MAX_FEE_BPS
        &&& forall|i: int|
            0 <= i < self.properties@.len() ==> {
                &&& (#[trigger] self.properties@[i]).id == i + 1
                &&& self.properties@[i].total_supply > 0
                &&& self.properties@[i].wanted > 0
            }
        &&& self.conserved()
    }

    /// Conservation: in a well-formed state the balances of every
    /// registered property add up to its total supply.
    pub proof fn lemma_conservation(&self, property_id: u128)
        requires
            self.wf(),
            self.has_property(property_id),
        ensures
            supply_in(self.ledger@, property_id) == self.property(property_id).total_supply,
    {
    }

    /// Whether the state is well formed. A state that was put together
    /// from stored parts is checked with this before it is used.
    pub fn is_well_formed(&self) -> (valid: bool)
        ensures
            valid == self.wf(),
    {
        if !self.ledger.is_well_formed() {
            return false;
        }
        if self.protocol_fee_bps > MAX_FEE_BPS {
            return false;
        }
        let mut i: usize = 0;
        while i < self.properties.len()
            invariant
                i <= self.properties.len(),
                self.ledger.wf(),
                forall|k: int|
                    0 <= k < i ==> {
                        &&& (#[trigger] self.properties@[k]).id == k + 1
                        &&& self.properties@[k].total_supply > 0
                        &&& self.properties@[k].wanted > 0
                        &&& supply_in(self.ledger@, (k + 1) as u128)
                            == self.properties@[k].total_supply
                    },
            decreases self.properties.len() - i,
        {
            let property = &self.properties[i];
            if property.id != i as u128 + 1 || property.total_supply <= 0 || property.wanted <= 0 {
                return false;
            }
            match self.ledger.supply(property.id) {
                Some(total) => {
                    if total != property.total_supply {
                        return false;
                    }
                },
                None => {
                    return false;
                },
            }
            i = i + 1;
        }
        let entries = self.ledger.entries();
        let mut j: usize = 0;
        while j < entries.len()
            invariant
                j <= entries.len(),
                entries_wf(entries@),
                balances_of(entries@) == self.ledger@,
                forall|k: int|
                    0 <= k < j ==> self.has_property((#[trigger] entries@[k]).property_id),
            decreases entries.len() - j,
        {
            let property_id = entries[j].property_id;
            if !(property_id >= 1 && property_id <= self.properties.len() as u128) {
                proof {
                    crate::ledger::lemma_entry_held(entries@, j as int);
                    crate::ledger::lemma_units_within_supply(
                        self.ledger@,
                        entries@[j as int].holder,
                        property_id,
                    );
                }
                return false;
            }
            j = j + 1;
        }
        proof {
            assert forall|property_id: u128| #[trigger]
                supply_in(self.ledger@, property_id) == self.total_supply_of(property_id) by {
                if !self.has_property(property_id) {
                    crate::ledger::lemma_supply_of_entries(entries@, property_id);
                    crate::ledger::lemma_held_none(entries@, property_id);
                }
            }
        }
        true
    }

    /// A token under `admin`, with no property, no fee, and `admin` as the
    /// fee wallet.
    pub fn initialize(
        admin: Address,
        name: String,
        symbol: String,
        decimal: u32,
    ) -> (token: RealEstateTokenContract)
        ensures
            token.wf(),
            token.admin == admin,
            token.name == name,
            token.symbol == symbol,
            token.decimal == decimal,
            token.protocol_fee_bps == 0,
            token.fee_wallet == admin,
            token.properties@.len() == 0,
            token.ledger@ == Map::<(Address, u128), int>::empty(),
    {
        let token = RealEstateTokenContract {
            admin,
            name,
            symbol,
            decimal,
            protocol_fee_bps: 0,
            fee_wallet: admin,
            properties: Vec::new(),
            ledger: Ledger::new(),
        };
        proof {
            assert forall|property_id: u128| #[trigger]
                supply_in(token.ledger@, property_id) == token.total_supply_of(property_id) by {
                crate::ledger::lemma_supply_empty(property_id);
            }
        }
        token
    }

    /// Whether `builder` may register properties: it has authorized the
    /// call and is the admin.
    pub open spec fn builder_verified(&self, auth: Set<Address>, builder: Address) -> bool {
        auth.contains(builder) && builder == self.admin
    }

    /// Checks that `builder` may register properties.
    pub fn verify_builder(&self, auth: &Authorizer, builder: Address) -> (result: Result<(), Error>)
        ensures
            self.builder_verified(auth@, builder) ==> result == Ok::<(), Error>(()),
            !self.builder_verified(auth@, builder) ==> result == Err::<(), Error>(
                Error::Unauthorized,
            ),
    {
        if auth.authorizes(builder) && builder == self.admin {
            Ok(())
        } else {
            Err(Error::Unauthorized)
        }
    }

    /// What a registration answers: the id of the new property, or why it
    /// is refused.
    pub open spec fn register_outcome(
        &self,
        auth: Set<Address>,
        builder: Address,
        wanted: i128,
        total_supply: i128,
    ) -> Result<u128, Error> {
        if !self.builder_verified(auth, builder) {
            Err(Error::Unauthorized)
        } else if total_supply <= 0 || wanted <= 0 {
            Err(Error::InvalidProperty)
        } else {
            Ok((self.properties@.len() + 1) as u128)
        }
    }

    /// Registers a property and credits its whole supply to `builder`.
    pub fn register_property(
        &mut self,
        auth: &Authorizer,
        builder: Address,
        name: String,
        wanted: i128,
        have: i128,
        total_supply: i128,
        builder_name: String,
        external_ref: String,
        ticker: String,
    ) -> (result: Result<u128, Error>)
        requires
            old(self).wf(),
        ensures
            final(self).wf(),
            result == old(self).register_outcome(auth@, builder, wanted, total_supply),
            result is Err ==> *final(self) == *old(self),
            result matches Ok(id) ==> {
                &&& final(self).properties@ == old(self).properties@.push(
                    Property {
                        id,
                        builder,
                        name,
                        wanted,
                        have,
                        total_supply,
                        builder_name,
                        external_ref,
                        ticker,
                    },
                )
                &&& final(self).ledger@ == credited(
                    old(self).ledger@,
                    builder,
                    id,
                    total_supply as int,
                )
                &&& units_in(final(self).ledger@, builder, id) == total_supply
                &&& final(self).admin == old(self).admin
                &&& final(self).name == old(self).name
                &&& final(self).symbol == old(self).symbol
                &&& final(self).decimal == old(self).decimal
                &&& final(self).protocol_fee_bps == old(self).protocol_fee_bps
                &&& final(self).fee_wallet == old(self).fee_wallet
            },
    {
        if !(auth.authorizes(builder) && builder == self.admin) {
            return Err(Error::Unauthorized);
        }
        if total_supply <= 0 || wanted <= 0 {
            return Err(Error::InvalidProperty);
        }
        let id: u128 = self.properties.len() as u128 + 1;
        let property = Property {
            id,
            builder,
            name,
            wanted,
            have,
            total_supply,
            builder_name,
            external_ref,
            ticker,
        };
        proof {
            self.ledger.lemma_wf_balances();
            crate::ledger::lemma_units_within_supply(self.ledger@, builder, id);
        }
        self.ledger.mint(builder, id, total_supply);
        self.properties.push(property);
        proof {
            assert forall|property_id: u128| #[trigger]
                supply_in(self.ledger@, property_id) == self.total_supply_of(property_id) by {
                assert(supply_in(old(self).ledger@, property_id) == old(self).total_supply_of(
                    property_id,
                ));
            }
        }
        Ok(id)
    }

    /// The property with this id.
    pub fn get_property(&self, property_id: u128) -> (result: Result<&Property, Error>)
        ensures
            self.has_property(property_id) ==> result == Ok::<&Property, Error>(
                &self.property(property_id),
            ),
            !self.has_property(property_id) ==> result == Err::<&Property, Error>(
                Error::InvalidProperty,
            ),
    {
        if property_id >= 1 && property_id <= self.properties.len() as u128 {
            let at: usize = (property_id - 1) as usize;
            Ok(&self.properties[at])
        } else {
            Err(Error::InvalidProperty)
        }
    }

    /// The price of one unit of the property, rounded toward zero.
    pub fn price(property: &Property) -> (price: i128)
        requires
            divisible(property.wanted, property.total_supply),
        ensures
            price == price_of(*property),
    {
        quotient(property.wanted, property.total_supply)
    }

    /// How many times the wanted valuation is covered, rounded toward zero.
    pub fn percentual(property: &Property) -> (ratio: i128)
        requires
            divisible(property.have, property.wanted),
        ensures
            ratio == percentual_of(*property),
    {
        quotient(property.have, property.wanted)
    }

    /// The number of units that `investment` buys at the price of the
    /// property, rounded toward zero.
    pub fn balance(investment: i128, property: &Property) -> (units: i128)
        requires
            divisible(property.wanted, property.total_supply),
            divisible(investment, price_of(*property) as i128),
        ensures
            units == trunc_div(investment as int, price_of(*property)),
    {
        let price = Self::price(property);
        quotient(investment, price)
    }

    /// The units `owner` holds of the property; zero if none.
    pub fn get_balance(&self, owner: Address, property_id: u128) -> (units: i128)
        requires
            self.wf(),
        ensures
            units == units_in(self.ledger@, owner, property_id),
            0 <= units <= self.total_supply_of(property_id),
    {
        proof {
            self.ledger.lemma_wf_balances();
            crate::ledger::lemma_units_within_supply(self.ledger@, owner, property_id);
        }
        self.ledger.balance_of(owner, property_id)
    }

    /// The supply of the property, as fixed at registration.
    pub fn get_total_supply(&self, property_id: u128) -> (result: Result<i128, Error>)
        ensures
            self.has_property(property_id) ==> result == Ok::<i128, Error>(
                self.property(property_id).total_supply,
            ),
            !self.has_property(property_id) ==> result == Err::<i128, Error>(
                Error::InvalidProperty,
            ),
    {
        match self.get_property(property_id) {
            Ok(property) => Ok(property.total_supply),
            Err(e) => Err(e),
        }
    }

    /// The name, the symbol and the number of decimals of the token.
    pub fn get_metadata(&self) -> (metadata: (String, String, u32))
        ensures
            metadata == (self.name, self.symbol, self.decimal),
    {
        (self.name.clone(), self.symbol.clone(), self.decimal)
    }

    /// What a change of the fee answers.
    pub open spec fn set_fee_outcome(&self, auth: Set<Address>, admin: Address, fee_bps: u32)
        -> Result<(), Error> {
        if !(auth.contains(admin) && admin == self.admin) {
            Err(Error::Unauthorized)
        } else if fee_bps > MAX_FEE_BPS {
            Err(Error::InvalidAmount)
        } else {
            Ok(())
        }
    }

    /// Sets the protocol fee and the wallet that receives it. Only the
    /// admin may do so, and the fee may not exceed a tenth.
    pub fn set_protocol_fee(
        &mut self,
        auth: &Authorizer,
        admin: Address,
        fee_bps: u32,
        fee_wallet: Address,
    ) -> (result: Result<(), Error>)
        requires
            old(self).wf(),
        ensures
            final(self).wf(),
            result == old(self).set_fee_outcome(auth@, admin, fee_bps),
            result is Err ==> *final(self) == *old(self),
            result is Ok ==> {
                &&& final(self).protocol_fee_bps == fee_bps
                &&& final(self).fee_wallet == fee_wallet
                &&& final(self).admin == old(self).admin
                &&& final(self).name == old(self).name
                &&& final(self).symbol == old(self).symbol
                &&& final(self).decimal == old(self).decimal
                &&& final(self).properties == old(self).properties
                &&& final(self).ledger == old(self).ledger
            },
    {
        if !(auth.authorizes(admin) && admin == self.admin) {
            return Err(Error::Unauthorized);
        }
        if fee_bps > MAX_FEE_BPS {
            return Err(Error::InvalidAmount);
        }
        self.protocol_fee_bps = fee_bps;
        self.fee_wallet = fee_wallet;
        Ok(())
    }

    /// The state after `amount` units went from `from` to `to` with the
    /// fee deducted: the ledger changes, nothing else does.
    pub open spec fn units_moved(
        before: &RealEstateTokenContract,
        after: &RealEstateTokenContract,
        from: Address,
        to: Address,
        property_id: u128,
        amount: i128,
    ) -> bool {
        &&& after.ledger@ == transferred(
            before.ledger@,
            from,
            to,
            property_id,
            amount as int,
            protocol_fee(amount as int, before.protocol_fee_bps as int),
            before.fee_wallet,
        )
        &&& after.admin == before.admin
        &&& after.name == before.name
        &&& after.symbol == before.symbol
        &&& after.decimal == before.decimal
        &&& after.protocol_fee_bps == before.protocol_fee_bps
        &&& after.fee_wallet == before.fee_wallet
        &&& after.properties == before.properties
    }

    /// What the fee-deducting move of units answers, whoever asks for it.
    pub open spec fn move_outcome(&self, from: Address, property_id: u128, amount: i128)
        -> Result<i128, Error> {
        transfer_outcome(
            self.ledger@,
            from,
            property_id,
            amount as int,
            self.protocol_fee_bps as int,
        )
    }

    /// Moves `amount` units from `from` to `to` with the protocol fee
    /// deducted, without asking who authorized it. Returns the fee.
    pub fn move_units(
        &mut self,
        from: Address,
        to: Address,
        property_id: u128,
        amount: i128,
    ) -> (result: Result<i128, Error>)
        requires
            old(self).wf(),
        ensures
            final(self).wf(),
            result == old(self).move_outcome(from, property_id, amount),
            result is Err ==> *final(self) == *old(self),
            result is Ok ==> Self::units_moved(
                old(self),
                final(self),
                from,
                to,
                property_id,
                amount,
            ),
    {
        let result = self.ledger.transfer(
            from,
            to,
            property_id,
            amount,
            self.protocol_fee_bps,
            self.fee_wallet,
        );
        proof {
            assert forall|of_property: u128| #[trigger]
                supply_in(self.ledger@, of_property) == self.total_supply_of(of_property) by {
                assert(supply_in(old(self).ledger@, of_property) == old(self).total_supply_of(
                    of_property,
                ));
            }
        }
        result
    }

    /// What `transfer_with_fee` answers: the fee, or why it is refused.
    pub open spec fn transfer_with_fee_outcome(
        &self,
        auth: Set<Address>,
        from: Address,
        property_id: u128,
        amount: i128,
    ) -> Result<i128, Error> {
        if !auth.contains(from) {
            Err(Error::Unauthorized)
        } else {
            self.move_outcome(from, property_id, amount)
        }
    }

    /// Transfers `amount` units in the name of `from`, with the protocol
    /// fee deducted from what `to` receives. The property is not looked
    /// up: nobody holds units of a property that is not registered, so a
    /// transfer of such units is refused for lack of balance.
    pub fn transfer_with_fee(
        &mut self,
        auth: &Authorizer,
        from: Address,
        to: Address,
        property_id: u128,
        amount: i128,
    ) -> (result: Result<TransferReceipt, Error>)
        requires
            old(self).wf(),
        ensures
            final(self).wf(),
            match old(self).transfer_with_fee_outcome(auth@, from, property_id, amount) {
                Ok(fee) => result == Ok::<TransferReceipt, Error>(
                    TransferReceipt { from, to, property_id, amount, fee },
                ) && Self::units_moved(old(self), final(self), from, to, property_id, amount),
                Err(e) => result == Err::<TransferReceipt, Error>(e) && *final(self) == *old(
                    self,
                ),
            },
    {
        if !auth.authorizes(from) {
            return Err(Error::Unauthorized);
        }
        match self.move_units(from, to, property_id, amount) {
            Ok(fee) => Ok(TransferReceipt { from, to, property_id, amount, fee }),
            Err(e) => Err(e),
        }
    }

    /// What `transfer_property` answers: the fee, or why it is refused.
    pub open spec fn transfer_property_outcome(
        &self,
        auth: Set<Address>,
        from: Address,
        property_id: u128,
        amount: i128,
    ) -> Result<i128, Error> {
        if !auth.contains(from) {
            Err(Error::Unauthorized)
        } else if amount <= 0 {
            Err(Error::InvalidAmount)
        } else if !self.has_property(property_id) {
            Err(Error::InvalidProperty)
        } else if units_in(self.ledger@, from, property_id) < amount {
            Err(Error::InsufficientBalance)
        } else {
            Ok(protocol_fee(amount as int, self.protocol_fee_bps as int) as i128)
        }
    }

    /// Transfers `amount` units of a registered property in the name of
    /// `from`: `from` loses `amount`, the fee wallet gains the fee and `to`
    /// gains the rest, all of it or nothing.
    pub fn transfer_property(
        &mut self,
        auth: &Authorizer,
        from: Address,
        to: Address,
        property_id: u128,
        amount: i128,
    ) -> (result: Result<TransferReceipt, Error>)
        requires
            old(self).wf(),
        ensures
            final(self).wf(),
            match old(self).transfer_property_outcome(auth@, from, property_id, amount) {
                Ok(fee) => result == Ok::<TransferReceipt, Error>(
                    TransferReceipt { from, to, property_id, amount, fee },
                ) && Self::units_moved(old(self), final(self), from, to, property_id, amount),
                Err(e) => result == Err::<TransferReceipt, Error>(e) && *final(self) == *old(
                    self,
                ),
            },
    {
        if !auth.authorizes(from) {
            return Err(Error::Unauthorized);
        }
        if amount <= 0 {
            return Err(Error::InvalidAmount);
        }
        if !(property_id >= 1 && property_id <= self.properties.len() as u128) {
            return Err(Error::InvalidProperty);
        }
        match self.move_units(from, to, property_id, amount) {
            Ok(fee) => Ok(TransferReceipt { from, to, property_id, amount, fee }),
            Err(e) => Err(e),
        }
    }
}

} // verus!
