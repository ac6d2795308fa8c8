//! The life of a loan after it is funded: repaid by its builder in time,
//! or declared defaulted after maturity.

use vstd::prelude::*;
use crate::address::Address;
use crate::auth::Authorizer;
use crate::error::Error;
use crate::ledger::Balances;
use crate::loan::escrow::payouts_of;
use crate::loan::{BorrowRequest, Collateral, LoanContract, LoanStatus, Payout, GRACE_SECONDS};
use crate::token::{RealEstateTokenContract, TransferReceipt};

verus! {

impl LoanContract {
    /// What a repayment answers: the fee of the release, or why it is
    /// refused.
    pub open spec fn repay_outcome(
        &self,
        auth: Set<Address>,
        token: &RealEstateTokenContract,
        builder: Address,
        loan_id: u128,
        now: u64,
    ) -> Result<i128, Error> {
        if !auth.contains(builder) {
            Err(Error::Unauthorized)
        } else if !self.has_loan(loan_id) {
            Err(Error::LoanNotFound)
        } else if self.loan(loan_id).builder != builder {
            Err(Error::Unauthorized)
        } else if self.loan(loan_id).status != LoanStatus::Funded {
            Err(Error::LoanNotActive)
        } else if now > self.loan(loan_id).maturity_timestamp + GRACE_SECONDS {
            Err(Error::InvalidTerms)
        } else {
            self.release_outcome(token, loan_id)
        }
    }

    /// Repays a funded loan in the name of its builder, no later than the
    /// grace period after maturity: the loan becomes `Repaid` and its
    /// collateral returns from escrow to the builder.
    pub fn repay(
        &mut self,
        auth: &Authorizer,
        token: &mut RealEstateTokenContract,
        builder: Address,
        loan_id: u128,
        now: u64,
    ) -> (result: Result<TransferReceipt, Error>)
        requires
            old(self).wf(),
            old(token).wf(),
        ensures
            final(self).wf(),
            Self::advanced(old(self), final(self)),
            final(token).wf(),
            match old(self).repay_outcome(auth@, old(token), builder, loan_id, now) {
                Ok(fee) => {
                    let loan = old(self).loan(loan_id);
                    &&& result == Ok::<TransferReceipt, Error>(
                        TransferReceipt {
                            from: old(self).escrow,
                            to: loan.builder,
                            property_id: loan.collateral->0.property_id,
                            amount: loan.collateral->0.locked_amount,
                            fee,
                        },
                    )
                    &&& Self::loan_replaced(
                        old(self),
                        final(self),
                        BorrowRequest { status: LoanStatus::Repaid, ..loan },
                    )
                    &&& final(self).investments == old(self).investments
                    &&& RealEstateTokenContract::units_moved(
                        old(token),
                        final(token),
                        old(self).escrow,
                        loan.builder,
                        loan.collateral->0.property_id,
                        loan.collateral->0.locked_amount,
                    )
                },
                Err(e) => {
                    &&& result == Err::<TransferReceipt, Error>(e)
                    &&& *final(self) == *old(self)
                    &&& *final(token) == *old(token)
                },
            },
    {
        if !auth.authorizes(builder) {
            return Err(Error::Unauthorized);
        }
        let loan = match self.get_loan(loan_id) {
            Ok(loan) => loan,
            Err(e) => {
                return Err(e);
            },
        };
        if loan.builder != builder {
            return Err(Error::Unauthorized);
        }
        if loan.status != LoanStatus::Funded {
            return Err(Error::LoanNotActive);
        }
        if now > loan.maturity_timestamp && now - loan.maturity_timestamp > GRACE_SECONDS {
            return Err(Error::InvalidTerms);
        }
        let receipt = match self.release_collateral(token, loan_id) {
            Ok(receipt) => receipt,
            Err(e) => {
                return Err(e);
            },
        };
        let repaid = BorrowRequest { status: LoanStatus::Repaid, ..loan };
        self.put_loan(repaid);
        proof {
            Self::lemma_wf_after(old(self), self, repaid);
            Self::lemma_advanced_by(old(self), self, repaid);
        }
        Ok(receipt)
    }

    /// What executing a default answers: the balances after the
    /// distribution, or why it is refused.
    pub open spec fn execute_default_outcome(
        &self,
        token: &RealEstateTokenContract,
        loan_id: u128,
        now: u64,
    ) -> Result<Balances, Error> {
        if !self.has_loan(loan_id) {
            Err(Error::LoanNotFound)
        } else if self.loan(loan_id).status != LoanStatus::Funded {
            Err(Error::LoanNotActive)
        } else if now <= self.loan(loan_id).maturity_timestamp {
            Err(Error::LoanNotMatured)
        } else {
            self.distribute_outcome(token, loan_id)
        }
    }

    /// Declares a funded loan defaulted once its maturity has passed: the
    /// loan becomes `Defaulted` and its collateral is distributed among
    /// the investors. Anyone may ask for it.
    pub fn execute_default(
        &mut self,
        token: &mut RealEstateTokenContract,
        loan_id: u128,
        now: u64,
    ) -> (result: Result<Vec<Payout>, Error>)
        requires
            old(self).wf(),
            old(token).wf(),
        ensures
            final(self).wf(),
            Self::advanced(old(self), final(self)),
            final(token).wf(),
            match old(self).execute_default_outcome(old(token), loan_id, now) {
                Ok(balances) => {
                    &&& result matches Ok(payouts)
                    &&& payouts@ == payouts_of(
                        old(self).investments@,
                        old(self).distribution_terms(old(token), loan_id),
                    )
                    &&& Self::ledger_replaced(old(token), final(token), balances)
                    &&& Self::loan_replaced(
                        old(self),
                        final(self),
                        BorrowRequest { status: LoanStatus::Defaulted, ..old(self).loan(loan_id) },
                    )
                    &&& final(self).investments == old(self).investments
                },
                Err(e) => {
                    &&& result == Err::<Vec<Payout>, Error>(e)
                    &&& *final(self) == *old(self)
                    &&& *final(token) == *old(token)
                },
            },
    {
        let loan = match self.get_loan(loan_id) {
            Ok(loan) => loan,
            Err(e) => {
                return Err(e);
            },
        };
        if loan.status != LoanStatus::Funded {
            return Err(Error::LoanNotActive);
        }
        if now <= loan.maturity_timestamp {
            return Err(Error::LoanNotMatured);
        }
        let payouts = match self.distribute_collateral(token, loan_id) {
            Ok(payouts) => payouts,
            Err(e) => {
                return Err(e);
            },
        };
        let defaulted = BorrowRequest { status: LoanStatus::Defaulted, ..loan };
        self.put_loan(defaulted);
        proof {
            Self::lemma_wf_after(old(self), self, defaulted);
            Self::lemma_advanced_by(old(self), self, defaulted);
        }
        Ok(payouts)
    }

    /// The repayment window: the builder of a funded loan may repay up to
    /// the grace period after maturity and not a second later.
    pub proof fn lemma_repay_window(
        &self,
        auth: Set<Address>,
        token: &RealEstateTokenContract,
        loan_id: u128,
        now: u64,
    )
        requires
            self.has_loan(loan_id),
            auth.contains(self.loan(loan_id).builder),
            self.loan(loan_id).status == LoanStatus::Funded,
        ensures
            now <= self.loan(loan_id).maturity_timestamp + GRACE_SECONDS ==> self.repay_outcome(
                auth,
                token,
                self.loan(loan_id).builder,
                loan_id,
                now,
            ) == self.release_outcome(token, loan_id),
            now > self.loan(loan_id).maturity_timestamp + GRACE_SECONDS ==> self.repay_outcome(
                auth,
                token,
                self.loan(loan_id).builder,
                loan_id,
                now,
            ) == Err::<i128, Error>(Error::InvalidTerms),
    {
    }

    /// A default can be executed after maturity only, and a repayment
    /// until the grace period ends: in between, both are open.
    pub proof fn lemma_default_after_maturity(
        &self,
        token: &RealEstateTokenContract,
        loan_id: u128,
        now: u64,
    )
        requires
            self.has_loan(loan_id),
            self.loan(loan_id).status == LoanStatus::Funded,
        ensures
            now <= self.loan(loan_id).maturity_timestamp ==> self.execute_default_outcome(
                token,
                loan_id,
                now,
            ) == Err::<Balances, Error>(Error::LoanNotMatured),
            now > self.loan(loan_id).maturity_timestamp ==> self.execute_default_outcome(
                token,
                loan_id,
                now,
            ) == self.distribute_outcome(token, loan_id),
    {
    }

    /// `Repaid` and `Defaulted` are final: every operation on such a loan
    /// is refused.
    pub proof fn lemma_terminal_is_final(
        &self,
        auth: Set<Address>,
        token: &RealEstateTokenContract,
        builder: Address,
        loan_id: u128,
        amount: i128,
        now: u64,
    )
        requires
            self.wf(),
            self.has_loan(loan_id),
            self.loan(loan_id).status == LoanStatus::Repaid || self.loan(loan_id).status
                == LoanStatus::Defaulted,
        ensures
            self.create_loan_outcome(token, loan_id, amount) == Err::<LoanStatus, Error>(
                Error::LoanNotActive,
            ),
            self.set_collateral_outcome(auth, token, builder, loan_id, amount) is Err,
            self.lock_outcome(token, loan_id) == Err::<i128, Error>(Error::TokensAlreadyLocked),
            self.repay_outcome(auth, token, builder, loan_id, now) is Err,
            self.execute_default_outcome(token, loan_id, now) == Err::<Balances, Error>(
                Error::LoanNotActive,
            ),
    {
    }

    /// Authorization: a principal that has not authorized the call can
    /// neither register a property, nor open a borrow request, nor pledge
    /// collateral, nor repay. Each is refused as `Unauthorized`.
    pub proof fn lemma_unauthorized_refused(
        &self,
        auth: Set<Address>,
        token: &RealEstateTokenContract,
        principal: Address,
        wanted: i128,
        total_supply: i128,
        property_id: u128,
        duration_days: u32,
        apy: u32,
        loan_id: u128,
        amount: i128,
        now: u64,
    )
        requires
            !auth.contains(principal),
        ensures
            token.register_outcome(auth, principal, wanted, total_supply) == Err::<u128, Error>(
                Error::Unauthorized,
            ),
            self.create_borrow_outcome(
                auth,
                token,
                principal,
                property_id,
                duration_days,
                apy,
                now,
            ) == Err::<BorrowRequest, Error>(Error::Unauthorized),
            self.set_collateral_outcome(auth, token, principal, loan_id, amount) == Err::<
                Collateral,
                Error,
            >(Error::Unauthorized),
            self.repay_outcome(auth, token, principal, loan_id, now) == Err::<i128, Error>(
                Error::Unauthorized,
            ),
    {
    }
}

} // verus!
