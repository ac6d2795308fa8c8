//! The investment pool: investors fund a loan up to its requested amount,
//! and the investment that completes it makes the loan funded.

use vstd::prelude::*;
use crate::address::Address;
use crate::error::Error;
use crate::loan::investments::{
    contribution_in, has_stake, investments_wf, investors_in, is_stake,
    lemma_contribution_at, lemma_contribution_none, lemma_entry_within_total, lemma_recorded,
    recorded, stake_index,
};
use crate::loan::{BorrowRequest, Investment, LoanContract, LoanStatus};
use crate::token::RealEstateTokenContract;

verus! {

impl LoanContract {
    /// Where the entry of `investor` for the loan stands, if there is one.
    fn stake_position(&self, loan_id: u128, investor: Address) -> (found: Option<usize>)
        requires
            investments_wf(self.investments@),
        ensures
            match found {
                Some(at) => at < self.investments@.len() && is_stake(
                    self.investments@[at as int],
                    loan_id,
                    investor,
                ) && has_stake(self.investments@, loan_id, investor) && stake_index(
                    self.investments@,
                    loan_id,
                    investor,
                ) == at,
                None => !has_stake(self.investments@, loan_id, investor),
            },
    {
        let mut i: usize = 0;
        while i < self.investments.len()
            invariant
                i <= self.investments.len(),
                investments_wf(self.investments@),
                forall|j: int|
                    0 <= j < i ==> !is_stake(#[trigger] self.investments@[j], loan_id, investor),
            decreases self.investments.len() - i,
        {
            if self.investments[i].loan_id == loan_id && self.investments[i].investor == investor {
                proof {
                    lemma_contribution_at(self.investments@, i as int, loan_id, investor);
                }
                return Some(i);
            }
            i = i + 1;
        }
        None
    }

    /// What an investment answers: the status of the loan after it, or why
    /// it is refused.
    pub open spec fn create_loan_outcome(
        &self,
        token: &RealEstateTokenContract,
        loan_id: u128,
        amount: i128,
    ) -> Result<LoanStatus, Error> {
        if !self.has_loan(loan_id) {
            Err(Error::LoanNotFound)
        } else if self.loan(loan_id).status != LoanStatus::Open {
            Err(Error::LoanNotActive)
        } else if amount <= 0 {
            Err(Error::InvalidAmount)
        } else if self.total_invested(loan_id) + amount > self.loan(loan_id).requested_amount {
            Err(Error::InvalidTerms)
        } else if self.total_invested(loan_id) + amount == self.loan(loan_id).requested_amount {
            match self.lock_outcome(token, loan_id) {
                Ok(_) => Ok(LoanStatus::Funded),
                Err(e) => Err(e),
            }
        } else {
            Ok(LoanStatus::Open)
        }
    }

    /// Records that `investor` puts `amount` into the loan. An amount that
    /// would take the loan over its requested amount is refused; the one
    /// that completes it locks the collateral and makes the loan `Funded`.
    pub fn create_loan(
        &mut self,
        token: &mut RealEstateTokenContract,
        loan_id: u128,
        investor: Address,
        amount: i128,
    ) -> (result: Result<LoanStatus, Error>)
        requires
            old(self).wf(),
            old(token).wf(),
        ensures
            final(self).wf(),
            Self::advanced(old(self), final(self)),
            final(token).wf(),
            result == old(self).create_loan_outcome(old(token), loan_id, amount),
            result is Err ==> *final(self) == *old(self) && *final(token) == *old(token),
            result matches Ok(status) ==> {
                let loan = old(self).loan(loan_id);
                &&& final(self).investments@ == recorded(
                    old(self).investments@,
                    loan_id,
                    investor,
                    amount,
                )
                &&& final(self).total_invested(loan_id) == old(self).total_invested(loan_id)
                    + amount
                &&& contribution_in(final(self).investments@, loan_id, investor)
                    == contribution_in(old(self).investments@, loan_id, investor) + amount
                &&& status == LoanStatus::Open ==> {
                    &&& Self::loan_replaced(old(self), final(self), loan)
                    &&& *final(token) == *old(token)
                }
                &&& status == LoanStatus::Funded ==> {
                    &&& Self::loan_replaced(
                        old(self),
                        final(self),
                        BorrowRequest { status: LoanStatus::Funded, ..Self::locked_loan(loan) },
                    )
                    &&& RealEstateTokenContract::units_moved(
                        old(token),
                        final(token),
                        loan.builder,
                        old(self).escrow,
                        loan.collateral->0.property_id,
                        loan.collateral->0.locked_amount,
                    )
                }
            },
    {
        let loan = match self.get_loan(loan_id) {
            Ok(loan) => loan,
            Err(e) => {
                return Err(e);
            },
        };
        if loan.status != LoanStatus::Open {
            return Err(Error::LoanNotActive);
        }
        if amount <= 0 {
            return Err(Error::InvalidAmount);
        }
        let total = self.invested(loan_id);
        if amount > loan.requested_amount - total {
            return Err(Error::InvalidTerms);
        }
        let completes = total + amount == loan.requested_amount;
        if completes {
            match self.lock_collateral(token, loan_id) {
                Ok(_) => {},
                Err(e) => {
                    return Err(e);
                },
            }
        }
        let ghost before = self.investments@;
        proof {
            lemma_recorded(before, loan_id, investor, amount);
        }
        match self.stake_position(loan_id, investor) {
            Some(at) => {
                proof {
                    lemma_entry_within_total(before, at as int);
                }
                let grown = Investment {
                    loan_id,
                    investor,
                    amount: self.investments[at].amount + amount,
                };
                self.investments.set(at, grown);
            },
            None => {
                self.investments.push(Investment { loan_id, investor, amount });
            },
        }
        let settled = if completes {
            let locked = match self.get_loan(loan_id) {
                Ok(locked) => locked,
                Err(_) => loan,
            };
            BorrowRequest { status: LoanStatus::Funded, ..locked }
        } else {
            loan
        };
        self.put_loan(settled);
        proof {
            assert(self.borrows@ =~= old(self).borrows@.update(settled.id - 1, settled));
            Self::lemma_wf_after(old(self), self, settled);
            Self::lemma_advanced_by(old(self), self, settled);
        }
        Ok(settled.status)
    }

    /// The investors of the loan, in the order in which they first
    /// invested.
    pub fn get_investors(&self, loan_id: u128) -> (result: Result<Vec<Address>, Error>)
        ensures
            self.has_loan(loan_id) ==> (result matches Ok(investors) && investors@
                == investors_in(self.investments@, loan_id)),
            !self.has_loan(loan_id) ==> result == Err::<Vec<Address>, Error>(Error::LoanNotFound),
    {
        if !(loan_id >= 1 && loan_id <= self.borrows.len() as u128) {
            return Err(Error::LoanNotFound);
        }
        let mut investors: Vec<Address> = Vec::new();
        let mut i: usize = 0;
        while i < self.investments.len()
            invariant
                i <= self.investments.len(),
                investors@ == investors_in(self.investments@.take(i as int), loan_id),
            decreases self.investments.len() - i,
        {
            proof {
                let next = self.investments@.take(i + 1);
                assert(next.drop_last() =~= self.investments@.take(i as int));
            }
            if self.investments[i].loan_id == loan_id {
                investors.push(self.investments[i].investor);
            }
            i = i + 1;
        }
        proof {
            assert(self.investments@.take(i as int) =~= self.investments@);
        }
        Ok(investors)
    }

    /// What `investor` has put into the loan; zero if nothing.
    pub fn get_investment(
        &self,
        loan_id: u128,
        investor: Address,
    ) -> (result: Result<i128, Error>)
        requires
            self.wf(),
        ensures
            self.has_loan(loan_id) ==> result == Ok::<i128, Error>(
                contribution_in(self.investments@, loan_id, investor) as i128,
            ),
            self.has_loan(loan_id) ==> 0 <= contribution_in(self.investments@, loan_id, investor)
                <= self.loan(loan_id).requested_amount,
            !self.has_loan(loan_id) ==> result == Err::<i128, Error>(Error::LoanNotFound),
    {
        if !(loan_id >= 1 && loan_id <= self.borrows.len() as u128) {
            return Err(Error::LoanNotFound);
        }
        proof {
            assert(self.has_loan(loan_id));
        }
        match self.stake_position(loan_id, investor) {
            Some(at) => {
                proof {
                    lemma_contribution_at(self.investments@, at as int, loan_id, investor);
                    lemma_entry_within_total(self.investments@, at as int);
                }
                Ok(self.investments[at].amount)
            },
            None => {
                proof {
                    lemma_contribution_none(self.investments@, loan_id, investor);
                }
                Ok(0)
            },
        }
    }

    /// The funding cap: the investments in a loan never exceed its
    /// requested amount, stay below it while the loan is open, and equal it
    /// from the moment the loan is funded.
    pub proof fn lemma_funding_cap(&self, loan_id: u128)
        requires
            self.wf(),
            self.has_loan(loan_id),
        ensures
            0 <= self.total_invested(loan_id) <= self.loan(loan_id).requested_amount,
            self.loan(loan_id).status == LoanStatus::Open <==> self.total_invested(loan_id)
                < self.loan(loan_id).requested_amount,
    {
    }

    /// An investment that would take an open loan over its requested
    /// amount is refused as `InvalidTerms`.
    pub proof fn lemma_over_cap_refused(
        &self,
        token: &RealEstateTokenContract,
        loan_id: u128,
        amount: i128,
    )
        requires
            self.has_loan(loan_id),
            self.loan(loan_id).status == LoanStatus::Open,
            amount > 0,
            self.total_invested(loan_id) + amount > self.loan(loan_id).requested_amount,
        ensures
            self.create_loan_outcome(token, loan_id, amount) == Err::<LoanStatus, Error>(
                Error::InvalidTerms,
            ),
    {
    }

    /// A loan is funded once: when it has left `Open`, further investments
    /// are refused as `LoanNotActive` and further attempts to lock its
    /// collateral as `TokensAlreadyLocked`.
    pub proof fn lemma_funded_once(
        &self,
        token: &RealEstateTokenContract,
        loan_id: u128,
        amount: i128,
    )
        requires
            self.wf(),
            self.has_loan(loan_id),
            self.loan(loan_id).status != LoanStatus::Open,
        ensures
            self.create_loan_outcome(token, loan_id, amount) == Err::<LoanStatus, Error>(
                Error::LoanNotActive,
            ),
            self.lock_outcome(token, loan_id) == Err::<i128, Error>(Error::TokensAlreadyLocked),
    {
    }
}

} // verus!
