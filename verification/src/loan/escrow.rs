//! The collateral escrow: the units that secure a loan are pledged, locked
//! into escrow when the loan is funded, and leave it either back to the
//! builder or to the investors.

use vstd::prelude::*;
use crate::address::Address;
use crate::arith::{collateral_share, protocol_fee, share_on};
use crate::auth::Authorizer;
use crate::error::Error;
use crate::ledger::{supply_in, transferred, units_in, Balances};
use crate::loan::investments::{invested_in, lemma_entry_within_total};
use crate::loan::{BorrowRequest, Collateral, Investment, LoanContract, LoanStatus, Payout};
use crate::token::{RealEstateTokenContract, TransferReceipt};

verus! {

/// What a distribution of collateral works with: the loan, the escrow
/// account, the locked units and the fee that transfers pay.
#[derive(Clone, Copy, Debug, PartialEq, Eq, Structural)]
pub struct Distribution {
    pub loan_id: u128,
    pub escrow: Address,
    pub property_id: u128,
    pub locked_amount: i128,
    pub requested_amount: i128,
    pub fee_bps: u32,
    pub fee_wallet: Address,
}

/// The share of the locked collateral that an investment earns: nothing
/// for an investment in another loan.
pub open spec fn share_of(stake: Investment, terms: Distribution) -> int {
    if stake.loan_id == terms.loan_id {
        collateral_share(
            stake.amount as int,
            terms.locked_amount as int,
            terms.requested_amount as int,
        )
    } else {
        0
    }
}

/// The balances after one investor received its share from escrow. A share
/// of zero moves nothing.
pub open spec fn paid_out(
    balances: Balances,
    stake: Investment,
    terms: Distribution,
) -> Result<Balances, Error> {
    let share = share_of(stake, terms);
    if share == 0 {
        Ok(balances)
    } else if units_in(balances, terms.escrow, terms.property_id) < share {
        Err(Error::InsufficientBalance)
    } else {
        Ok(
            transferred(
                balances,
                terms.escrow,
                stake.investor,
                terms.property_id,
                share,
                protocol_fee(share, terms.fee_bps as int),
                terms.fee_wallet,
            ),
        )
    }
}

/// The balances after every investor of the loan, in order, received its
/// share from escrow; or the reason the first failing transfer gave.
pub open spec fn distributed(
    balances: Balances,
    investments: Seq<Investment>,
    terms: Distribution,
) -> Result<Balances, Error>
    decreases investments.len(),
{
    if investments.len() == 0 {
        Ok(balances)
    } else {
        match distributed(balances, investments.drop_last(), terms) {
            Ok(paid) => paid_out(paid, investments.last(), terms),
            Err(e) => Err(e),
        }
    }
}

/// The shares that a distribution hands out, in order; shares of zero are
/// left out.
pub open spec fn payouts_of(investments: Seq<Investment>, terms: Distribution) -> Seq<Payout>
    decreases investments.len(),
{
    if investments.len() == 0 {
        Seq::empty()
    } else if share_of(investments.last(), terms) != 0 {
        payouts_of(investments.drop_last(), terms).push(
            Payout {
                investor: investments.last().investor,
                share: share_of(investments.last(), terms) as i128,
            },
        )
    } else {
        payouts_of(investments.drop_last(), terms)
    }
}

/// The sum of the shares handed out.
pub open spec fn payout_total(investments: Seq<Investment>, terms: Distribution) -> int
    decreases investments.len(),
{
    if investments.len() == 0 {
        0
    } else {
        payout_total(investments.drop_last(), terms) + share_of(investments.last(), terms)
    }
}

/// The shares of a distribution add up to no more than the share of what
/// was invested in the loan altogether.
pub proof fn lemma_payouts_within_share(investments: Seq<Investment>, terms: Distribution)
    requires
        forall|i: int| 0 <= i < investments.len() ==> (#[trigger] investments[i]).amount > 0,
        0 < terms.requested_amount,
        0 <= terms.locked_amount,
    ensures
        0 <= payout_total(investments, terms) <= collateral_share(
            invested_in(investments, terms.loan_id),
            terms.locked_amount as int,
            terms.requested_amount as int,
        ),
        0 <= invested_in(investments, terms.loan_id),
    decreases investments.len(),
{
    let locked = terms.locked_amount as int;
    let requested = terms.requested_amount as int;
    if investments.len() == 0 {
        assert(0int * locked == 0);
        assert(0int / requested == 0) by (nonlinear_arith)
            requires
                0 < requested,
        ;
    } else {
        let front = investments.drop_last();
        let last = investments.last();
        assert forall|i: int| 0 <= i < front.len() implies (#[trigger] front[i]).amount > 0 by {
            assert(front[i] == investments[i]);
        }
        lemma_payouts_within_share(front, terms);
        assert(last == investments[investments.len() - 1]);
        let before = invested_in(front, terms.loan_id);
        if last.loan_id == terms.loan_id {
            let amount = last.amount as int;
            assert(0 <= before * locked && 0 <= amount * locked && (before + amount) * locked
                == before * locked + amount * locked) by (nonlinear_arith)
                requires
                    0 <= before,
                    0 <= amount,
                    0 <= locked,
            ;
            crate::arith::lemma_floor_sum(before * locked, amount * locked, requested);
            vstd::arithmetic::div_mod::lemma_div_is_ordered(0, amount * locked, requested);
        }
    }
}

/// The collateral suffices: what a distribution hands out is no more than
/// what was locked, so that what rounding leaves over stays in escrow.
pub proof fn lemma_payouts_within_collateral(investments: Seq<Investment>, terms: Distribution)
    requires
        forall|i: int| 0 <= i < investments.len() ==> (#[trigger] investments[i]).amount > 0,
        invested_in(investments, terms.loan_id) <= terms.requested_amount,
        0 < terms.requested_amount,
        0 <= terms.locked_amount,
    ensures
        0 <= payout_total(investments, terms) <= terms.locked_amount,
{
    lemma_payouts_within_share(investments, terms);
    crate::arith::lemma_share_bounds(
        invested_in(investments, terms.loan_id),
        terms.locked_amount as int,
        terms.requested_amount as int,
    );
}

/// The sum of the shares that a distribution hands to `holder`.
pub open spec fn received_by(
    investments: Seq<Investment>,
    terms: Distribution,
    holder: Address,
) -> int
    decreases investments.len(),
{
    if investments.len() == 0 {
        0
    } else {
        received_by(investments.drop_last(), terms, holder) + (if investments.last().investor
            == holder {
            share_of(investments.last(), terms)
        } else {
            0
        })
    }
}

/// Default distribution: where transfers are free of fees and the escrow
/// account is no investor of the loan, a distribution that the escrow can
/// pay succeeds, every holder gains the shares of its investments, and the
/// escrow loses what is handed out and nothing more, so that it keeps
/// what rounding leaves over.
pub proof fn lemma_distribution_settles(
    balances: Balances,
    investments: Seq<Investment>,
    terms: Distribution,
    holder: Address,
)
    requires
        terms.fee_bps == 0,
        0 < terms.requested_amount,
        0 <= terms.locked_amount,
        forall|i: int| 0 <= i < investments.len() ==> (#[trigger] investments[i]).amount > 0,
        forall|i: int|
            0 <= i < investments.len() && (#[trigger] investments[i]).loan_id == terms.loan_id
                ==> investments[i].investor != terms.escrow,
        payout_total(investments, terms) <= units_in(balances, terms.escrow, terms.property_id),
    ensures
        distributed(balances, investments, terms) is Ok,
        units_in(
            distributed(balances, investments, terms)->Ok_0,
            terms.escrow,
            terms.property_id,
        ) == units_in(balances, terms.escrow, terms.property_id) - payout_total(
            investments,
            terms,
        ),
        holder != terms.escrow ==> units_in(
            distributed(balances, investments, terms)->Ok_0,
            holder,
            terms.property_id,
        ) == units_in(balances, holder, terms.property_id) + received_by(
            investments,
            terms,
            holder,
        ),
        0 <= payout_total(investments, terms),
    decreases investments.len(),
{
    if investments.len() > 0 {
        let front = investments.drop_last();
        let last = investments.last();
        assert(last == investments[investments.len() - 1]);
        assert forall|i: int| 0 <= i < front.len() implies (#[trigger] front[i]).amount > 0 by {
            assert(front[i] == investments[i]);
        }
        assert forall|i: int|
            0 <= i < front.len() && (#[trigger] front[i]).loan_id
                == terms.loan_id implies front[i].investor != terms.escrow by {
            assert(front[i] == investments[i]);
        }
        let share = share_of(last, terms);
        assert(0 <= share) by {
            if last.loan_id == terms.loan_id {
                assert(0 <= last.amount * terms.locked_amount) by (nonlinear_arith)
                    requires
                        0 < last.amount,
                        0 <= terms.locked_amount,
                ;
                vstd::arithmetic::div_mod::lemma_div_is_ordered(
                    0,
                    last.amount * terms.locked_amount,
                    terms.requested_amount as int,
                );
            }
        }
        lemma_payout_total_nonnegative(front, terms);
        lemma_distribution_settles(balances, front, terms, holder);
        let paid = distributed(balances, front, terms)->Ok_0;
        if share != 0 {
            assert(protocol_fee(share, 0) == 0);
            crate::ledger::lemma_transfer_balances(
                paid,
                terms.escrow,
                last.investor,
                terms.property_id,
                share,
                0,
                terms.fee_wallet,
                terms.escrow,
                terms.property_id,
            );
            crate::ledger::lemma_transfer_balances(
                paid,
                terms.escrow,
                last.investor,
                terms.property_id,
                share,
                0,
                terms.fee_wallet,
                holder,
                terms.property_id,
            );
        }
    }
}

/// No distribution hands out less than nothing.
pub proof fn lemma_payout_total_nonnegative(investments: Seq<Investment>, terms: Distribution)
    requires
        0 < terms.requested_amount,
        0 <= terms.locked_amount,
        forall|i: int| 0 <= i < investments.len() ==> (#[trigger] investments[i]).amount > 0,
    ensures
        0 <= payout_total(investments, terms),
{
    lemma_payouts_within_share(investments, terms);
}

impl LoanContract {
    /// What setting the collateral answers: the record, or why it is
    /// refused.
    pub open spec fn set_collateral_outcome(
        &self,
        auth: Set<Address>,
        token: &RealEstateTokenContract,
        builder: Address,
        loan_id: u128,
        amount: i128,
    ) -> Result<Collateral, Error> {
        if !auth.contains(builder) {
            Err(Error::Unauthorized)
        } else if !self.has_loan(loan_id) {
            Err(Error::LoanNotFound)
        } else if self.loan(loan_id).builder != builder {
            Err(Error::Unauthorized)
        } else if self.loan(loan_id).status != LoanStatus::Open {
            Err(Error::LoanNotActive)
        } else if self.loan(loan_id).collateral is Some && self.loan(loan_id).collateral->0.locked {
            Err(Error::TokensAlreadyLocked)
        } else if amount <= 0 {
            Err(Error::InvalidCollateralAmount)
        } else if units_in(token.ledger@, builder, self.loan(loan_id).property_id) < amount {
            Err(Error::InsufficientBalance)
        } else {
            Ok(
                Collateral {
                    property_id: self.loan(loan_id).property_id,
                    locked_amount: amount,
                    locked: false,
                },
            )
        }
    }

    /// Pledges `amount` units of the loan's property as its collateral.
    /// The units stay with the builder until the loan is funded.
    pub fn set_collateral(
        &mut self,
        auth: &Authorizer,
        token: &RealEstateTokenContract,
        builder: Address,
        loan_id: u128,
        amount: i128,
    ) -> (result: Result<Collateral, Error>)
        requires
            old(self).wf(),
            token.wf(),
        ensures
            final(self).wf(),
            Self::advanced(old(self), final(self)),
            result == old(self).set_collateral_outcome(auth@, token, builder, loan_id, amount),
            result is Err ==> *final(self) == *old(self),
            result matches Ok(collateral) ==> {
                &&& Self::loan_replaced(
                    old(self),
                    final(self),
                    BorrowRequest { collateral: Some(collateral), ..old(self).loan(loan_id) },
                )
                &&& final(self).investments == old(self).investments
            },
    {
        if !auth.authorizes(builder) {
            return Err(Error::Unauthorized);
        }
        let loan = match self.get_loan(loan_id) {
            Ok(loan) => loan,
            Err(e) => {
                return Err(e);
            },
        };
        if loan.builder != builder {
            return Err(Error::Unauthorized);
        }
        if loan.status != LoanStatus::Open {
            return Err(Error::LoanNotActive);
        }
        match loan.collateral {
            Some(existing) => {
                if existing.locked {
                    return Err(Error::TokensAlreadyLocked);
                }
            },
            None => {},
        }
        if amount <= 0 {
            return Err(Error::InvalidCollateralAmount);
        }
        if token.get_balance(builder, loan.property_id) < amount {
            return Err(Error::InsufficientBalance);
        }
        let collateral = Collateral {
            property_id: loan.property_id,
            locked_amount: amount,
            locked: false,
        };
        let pledged = BorrowRequest { collateral: Some(collateral), ..loan };
        proof {
            assert(old(self).loan_wf(loan_id));
        }
        self.put_loan(pledged);
        proof {
            Self::lemma_wf_after(old(self), self, pledged);
            Self::lemma_advanced_by(old(self), self, pledged);
        }
        Ok(collateral)
    }

    /// What locking the collateral answers: the fee of the move into
    /// escrow, or why it is refused.
    pub open spec fn lock_outcome(&self, token: &RealEstateTokenContract, loan_id: u128)
        -> Result<i128, Error> {
        if !self.has_loan(loan_id) {
            Err(Error::LoanNotFound)
        } else {
            match self.loan(loan_id).collateral {
                None => Err(Error::CollateralNotSet),
                Some(collateral) => if collateral.locked {
                    Err(Error::TokensAlreadyLocked)
                } else {
                    token.move_outcome(
                        self.loan(loan_id).builder,
                        collateral.property_id,
                        collateral.locked_amount,
                    )
                },
            }
        }
    }

    /// The loan with its collateral marked as locked.
    pub open spec fn locked_loan(loan: BorrowRequest) -> BorrowRequest
        recommends
            loan.collateral is Some,
    {
        BorrowRequest {
            collateral: Some(Collateral { locked: true, ..loan.collateral->0 }),
            ..loan
        }
    }

    /// Moves the collateral of the loan from its builder into escrow and
    /// marks it locked. A collateral is locked once only.
    pub fn lock_collateral(
        &mut self,
        token: &mut RealEstateTokenContract,
        loan_id: u128,
    ) -> (result: Result<TransferReceipt, Error>)
        requires
            old(self).wf(),
            old(token).wf(),
        ensures
            final(self).wf(),
            Self::advanced(old(self), final(self)),
            final(token).wf(),
            match old(self).lock_outcome(old(token), loan_id) {
                Ok(fee) => {
                    let loan = old(self).loan(loan_id);
                    &&& result == Ok::<TransferReceipt, Error>(
                        TransferReceipt {
                            from: loan.builder,
                            to: old(self).escrow,
                            property_id: loan.collateral->0.property_id,
                            amount: loan.collateral->0.locked_amount,
                            fee,
                        },
                    )
                    &&& Self::loan_replaced(old(self), final(self), Self::locked_loan(loan))
                    &&& final(self).investments == old(self).investments
                    &&& RealEstateTokenContract::units_moved(
                        old(token),
                        final(token),
                        loan.builder,
                        old(self).escrow,
                        loan.collateral->0.property_id,
                        loan.collateral->0.locked_amount,
                    )
                },
                Err(e) => {
                    &&& result == Err::<TransferReceipt, Error>(e)
                    &&& *final(self) == *old(self)
                    &&& *final(token) == *old(token)
                },
            },
    {
        let loan = match self.get_loan(loan_id) {
            Ok(loan) => loan,
            Err(e) => {
                return Err(e);
            },
        };
        let collateral = match loan.collateral {
            Some(collateral) => collateral,
            None => {
                return Err(Error::CollateralNotSet);
            },
        };
        if collateral.locked {
            return Err(Error::TokensAlreadyLocked);
        }
        let fee = match token.move_units(
            loan.builder,
            self.escrow,
            collateral.property_id,
            collateral.locked_amount,
        ) {
            Ok(fee) => fee,
            Err(e) => {
                return Err(e);
            },
        };
        let locked = BorrowRequest {
            collateral: Some(Collateral { locked: true, ..collateral }),
            ..loan
        };
        proof {
            assert(old(self).loan_wf(loan_id));
        }
        self.put_loan(locked);
        proof {
            Self::lemma_wf_after(old(self), self, locked);
            Self::lemma_advanced_by(old(self), self, locked);
        }
        Ok(
            TransferReceipt {
                from: loan.builder,
                to: self.escrow,
                property_id: collateral.property_id,
                amount: collateral.locked_amount,
                fee,
            },
        )
    }

    /// A collateral is locked once: in the state that a successful lock
    /// leaves, locking it again is refused as `TokensAlreadyLocked`.
    pub proof fn lemma_lock_once(
        before: &LoanContract,
        after: &LoanContract,
        token: &RealEstateTokenContract,
        later: &RealEstateTokenContract,
        loan_id: u128,
    )
        requires
            before.wf(),
            before.lock_outcome(token, loan_id) is Ok,
            Self::loan_replaced(before, after, Self::locked_loan(before.loan(loan_id))),
        ensures
            after.lock_outcome(later, loan_id) == Err::<i128, Error>(Error::TokensAlreadyLocked),
    {
        assert(before.has_loan(loan_id));
        assert(before.loan_wf(loan_id));
    }

    /// The terms under which the collateral of a loan is distributed.
    pub open spec fn distribution_terms(&self, token: &RealEstateTokenContract, loan_id: u128)
        -> Distribution
        recommends
            self.has_loan(loan_id),
            self.loan(loan_id).collateral is Some,
    {
        Distribution {
            loan_id,
            escrow: self.escrow,
            property_id: self.loan(loan_id).collateral->0.property_id,
            locked_amount: self.loan(loan_id).collateral->0.locked_amount,
            requested_amount: self.loan(loan_id).requested_amount,
            fee_bps: token.protocol_fee_bps,
            fee_wallet: token.fee_wallet,
        }
    }

    /// What releasing the collateral answers: the fee of the move back to
    /// the builder, or why it is refused.
    pub open spec fn release_outcome(&self, token: &RealEstateTokenContract, loan_id: u128)
        -> Result<i128, Error> {
        if !self.has_loan(loan_id) {
            Err(Error::LoanNotFound)
        } else {
            match self.loan(loan_id).collateral {
                None => Err(Error::CollateralNotSet),
                Some(collateral) => if !collateral.locked {
                    Err(Error::CollateralNotSet)
                } else {
                    token.move_outcome(
                        self.escrow,
                        collateral.property_id,
                        collateral.locked_amount,
                    )
                },
            }
        }
    }

    /// Moves the locked collateral of the loan from escrow back to its
    /// builder. The loan itself is not touched: `repay` pairs the release
    /// with the transition that makes it final.
    pub(super) fn release_collateral(
        &self,
        token: &mut RealEstateTokenContract,
        loan_id: u128,
    ) -> (result: Result<TransferReceipt, Error>)
        requires
            self.wf(),
            old(token).wf(),
        ensures
            final(token).wf(),
            match self.release_outcome(old(token), loan_id) {
                Ok(fee) => {
                    let loan = self.loan(loan_id);
                    &&& result == Ok::<TransferReceipt, Error>(
                        TransferReceipt {
                            from: self.escrow,
                            to: loan.builder,
                            property_id: loan.collateral->0.property_id,
                            amount: loan.collateral->0.locked_amount,
                            fee,
                        },
                    )
                    &&& RealEstateTokenContract::units_moved(
                        old(token),
                        final(token),
                        self.escrow,
                        loan.builder,
                        loan.collateral->0.property_id,
                        loan.collateral->0.locked_amount,
                    )
                },
                Err(e) => result == Err::<TransferReceipt, Error>(e) && *final(token) == *old(
                    token,
                ),
            },
    {
        let loan = match self.get_loan(loan_id) {
            Ok(loan) => loan,
            Err(e) => {
                return Err(e);
            },
        };
        let collateral = match loan.collateral {
            Some(collateral) => collateral,
            None => {
                return Err(Error::CollateralNotSet);
            },
        };
        if !collateral.locked {
            return Err(Error::CollateralNotSet);
        }
        match token.move_units(
            self.escrow,
            loan.builder,
            collateral.property_id,
            collateral.locked_amount,
        ) {
            Ok(fee) => Ok(
                TransferReceipt {
                    from: self.escrow,
                    to: loan.builder,
                    property_id: collateral.property_id,
                    amount: collateral.locked_amount,
                    fee,
                },
            ),
            Err(e) => Err(e),
        }
    }

    /// What distributing the collateral answers: the balances after it, or
    /// why it is refused.
    pub open spec fn distribute_outcome(&self, token: &RealEstateTokenContract, loan_id: u128)
        -> Result<Balances, Error> {
        if !self.has_loan(loan_id) {
            Err(Error::LoanNotFound)
        } else {
            match self.loan(loan_id).collateral {
                None => Err(Error::CollateralNotSet),
                Some(collateral) => if !collateral.locked {
                    Err(Error::CollateralNotSet)
                } else {
                    distributed(
                        token.ledger@,
                        self.investments@,
                        self.distribution_terms(token, loan_id),
                    )
                },
            }
        }
    }

    /// The token after a distribution: the ledger holds `balances`,
    /// nothing else changed.
    pub open spec fn ledger_replaced(
        before: &RealEstateTokenContract,
        after: &RealEstateTokenContract,
        balances: Balances,
    ) -> bool {
        &&& after.ledger@ == balances
        &&& after.admin == before.admin
        &&& after.name == before.name
        &&& after.symbol == before.symbol
        &&& after.decimal == before.decimal
        &&& after.protocol_fee_bps == before.protocol_fee_bps
        &&& after.fee_wallet == before.fee_wallet
        &&& after.properties == before.properties
    }

    /// Hands every investor of the loan its share of the locked
    /// collateral, out of escrow, in the order of first investment. What
    /// rounding leaves over stays in escrow. All the transfers take place
    /// or none does.
    pub(super) fn distribute_collateral(
        &self,
        token: &mut RealEstateTokenContract,
        loan_id: u128,
    ) -> (result: Result<Vec<Payout>, Error>)
        requires
            self.wf(),
            old(token).wf(),
        ensures
            final(token).wf(),
            match self.distribute_outcome(old(token), loan_id) {
                Ok(balances) => {
                    &&& result matches Ok(payouts)
                    &&& payouts@ == payouts_of(
                        self.investments@,
                        self.distribution_terms(old(token), loan_id),
                    )
                    &&& Self::ledger_replaced(old(token), final(token), balances)
                },
                Err(e) => result == Err::<Vec<Payout>, Error>(e) && *final(token) == *old(
                    token,
                ),
            },
    {
        let loan = match self.get_loan(loan_id) {
            Ok(loan) => loan,
            Err(e) => {
                return Err(e);
            },
        };
        let collateral = match loan.collateral {
            Some(collateral) => collateral,
            None => {
                return Err(Error::CollateralNotSet);
            },
        };
        if !collateral.locked {
            return Err(Error::CollateralNotSet);
        }
        let terms = Distribution {
            loan_id,
            escrow: self.escrow,
            property_id: collateral.property_id,
            locked_amount: collateral.locked_amount,
            requested_amount: loan.requested_amount,
            fee_bps: token.protocol_fee_bps,
            fee_wallet: token.fee_wallet,
        };
        let mut work = token.ledger.duplicate();
        let mut payouts: Vec<Payout> = Vec::new();
        let mut i: usize = 0;
        proof {
            assert(self.loan_wf(loan_id));
            assert(self.investments@.take(0) =~= Seq::<Investment>::empty());
        }
        while i < self.investments.len()
            invariant
                i <= self.investments.len(),
                self.wf(),
                self.has_loan(loan_id),
                old(token).wf(),
                self.loan(loan_id).collateral is Some,
                self.loan(loan_id).collateral->0.locked,
                terms == self.distribution_terms(old(token), loan_id),
                terms.locked_amount > 0,
                terms.fee_bps <= 1000,
                work.wf(),
                forall|property_id: u128|
                    #[trigger] supply_in(work@, property_id) == supply_in(
                        old(token).ledger@,
                        property_id,
                    ),
                distributed(old(token).ledger@, self.investments@.take(i as int), terms) == Ok::<
                    Balances,
                    Error,
                >(work@),
                payouts@ == payouts_of(self.investments@.take(i as int), terms),
                *token == *old(token),
            decreases self.investments.len() - i,
        {
            let stake = self.investments[i];
            proof {
                let next = self.investments@.take(i + 1);
                assert(next.drop_last() =~= self.investments@.take(i as int));
                assert(next.last() == stake);
                assert(self.has_loan(stake.loan_id));
                assert(self.loan_wf(loan_id));
                lemma_entry_within_total(self.investments@, i as int);
            }
            if stake.loan_id == loan_id {
                let share = share_on(stake.amount, terms.locked_amount, terms.requested_amount);
                if share > 0 {
                    proof {
                        assert(supply_in(work@, terms.property_id) == supply_in(
                            old(token).ledger@,
                            terms.property_id,
                        ));
                        assert(supply_in(old(token).ledger@, terms.property_id) == old(
                            token,
                        ).total_supply_of(terms.property_id));
                    }
                    let ghost paid = work@;
                    proof {
                        assert(distributed(
                            old(token).ledger@,
                            self.investments@.take(i + 1),
                            terms,
                        ) == paid_out(paid, stake, terms));
                    }
                    match work.transfer(
                        terms.escrow,
                        stake.investor,
                        terms.property_id,
                        share,
                        terms.fee_bps,
                        terms.fee_wallet,
                    ) {
                        Ok(_) => {
                            payouts.push(Payout { investor: stake.investor, share });
                            proof {
                                assert forall|property_id: u128|
                                    #[trigger] supply_in(work@, property_id) == supply_in(
                                        old(token).ledger@,
                                        property_id,
                                    ) by {
                                    assert(supply_in(paid, property_id) == supply_in(
                                        old(token).ledger@,
                                        property_id,
                                    ));
                                }
                            }
                        },
                        Err(e) => {
                            proof {
                                Self::lemma_distribution_fails(
                                    old(token).ledger@,
                                    self.investments@,
                                    i + 1,
                                    terms,
                                );
                            }
                            return Err(e);
                        },
                    }
                }
            }
            i = i + 1;
        }
        proof {
            assert(self.investments@.take(i as int) =~= self.investments@);
            assert forall|property_id: u128| #[trigger]
                supply_in(work@, property_id) == old(token).total_supply_of(property_id) by {
                assert(supply_in(old(token).ledger@, property_id) == old(token).total_supply_of(
                    property_id,
                ));
            }
        }
        token.ledger = work;
        Ok(payouts)
    }

    /// A distribution that fails on its first entries fails as a whole,
    /// for the same reason.
    proof fn lemma_distribution_fails(
        balances: Balances,
        investments: Seq<Investment>,
        count: int,
        terms: Distribution,
    )
        requires
            0 <= count <= investments.len(),
            distributed(balances, investments.take(count), terms) is Err,
        ensures
            distributed(balances, investments, terms) == distributed(
                balances,
                investments.take(count),
                terms,
            ),
        decreases investments.len() - count,
    {
        if count == investments.len() {
            assert(investments.take(count) =~= investments);
        } else {
            let next = investments.take(count + 1);
            assert(next.drop_last() =~= investments.take(count));
            Self::lemma_distribution_fails(balances, investments, count + 1, terms);
        }
    }
}

} // verus!
