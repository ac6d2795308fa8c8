//! Loans against registered properties: a borrow request is funded by
//! investors up to its requested amount, its collateral is locked in
//! escrow when the amount is reached, and it ends repaid or defaulted.
//!
//! This module holds the state and what it means for it to be well formed;
//! the operations are in the modules below it.

use vstd::prelude::*;
use crate::address::Address;
use crate::error::Error;
use crate::loan::investments::{invested_in, investments_wf, lemma_invested_prefix};

pub mod escrow;
pub mod investments;
pub mod lifecycle;
pub mod origination;
pub mod pool;

verus! {

/// The number of seconds in a day.
pub const SECONDS_PER_DAY: u64 = 86400;

/// How long after maturity a repayment is still accepted, in seconds.
pub const GRACE_SECONDS: u64 = 86400;

/// Where a loan stands. `Repaid` and `Defaulted` are final.
#[derive(Clone, Copy, Debug, PartialEq, Eq, Structural)]
pub enum LoanStatus {
    /// Accepting investments.
    Open,
    /// Fully funded, with its collateral in escrow.
    Funded,
    /// Repaid by the builder; the collateral went back.
    Repaid,
    /// Not repaid in time; the collateral went to the investors.
    Defaulted,
}

/// The collateral that secures a loan.
#[derive(Clone, Copy, Debug, PartialEq, Eq, Structural)]
pub struct Collateral {
    pub property_id: u128,
    /// The units that are moved into escrow when the loan is funded.
    pub locked_amount: i128,
    /// Whether they have been moved. Once set, this stays set.
    pub locked: bool,
}

/// A borrow request and the loan that grows out of it. The terms are taken
/// from the property when the request is made and do not follow it later.
#[derive(Clone, Copy, Debug, PartialEq, Eq, Structural)]
pub struct BorrowRequest {
    pub id: u128,
    pub property_id: u128,
    pub builder: Address,
    /// The amount the investors are asked for: the funding cap.
    pub requested_amount: i128,
    /// The amount owed at maturity: the requested amount and the interest.
    pub repayment_amount: i128,
    pub duration_days: u32,
    /// Seconds since the epoch at which the loan matures.
    pub maturity_timestamp: u64,
    /// The interest rate, in basis points.
    pub apy: u32,
    /// The unit price of the property when the request was made.
    pub price: i128,
    /// The covered part of the valuation when the request was made.
    pub percentual: i128,
    pub status: LoanStatus,
    pub collateral: Option<Collateral>,
}

/// What one investor has put into one loan.
#[derive(Clone, Copy, Debug, PartialEq, Eq, Structural)]
pub struct Investment {
    pub loan_id: u128,
    pub investor: Address,
    pub amount: i128,
}

/// Collateral units handed to an investor of a defaulted loan.
#[derive(Clone, Copy, Debug, PartialEq, Eq, Structural)]
pub struct Payout {
    pub investor: Address,
    pub share: i128,
}

/// The loans of the protocol, the investments in them and the escrow
/// account that holds their collateral.
pub struct LoanContract {
    pub admin: Address,
    /// The holder under which locked collateral is kept.
    pub escrow: Address,
    /// The borrow requests in order of creation; the first has id 1.
    pub borrows: Vec<BorrowRequest>,
    /// The investments, one entry per loan and investor, in order of first
    /// contribution.
    pub investments: Vec<Investment>,
}

impl LoanContract {
    /// Whether a loan with this id exists.
    pub open spec fn has_loan(&self, loan_id: u128) -> bool {
        1 <= loan_id <= self.borrows@.len()
    }

    /// The loan with this id.
    pub open spec fn loan(&self, loan_id: u128) -> BorrowRequest
        recommends
            self.has_loan(loan_id),
    {
        self.borrows@[loan_id - 1]
    }

    /// The sum invested in the loan so far.
    pub open spec fn total_invested(&self, loan_id: u128) -> int {
        invested_in(self.investments@, loan_id)
    }

    /// A loan is well formed when its investments stay within the
    /// requested amount, reach it exactly once it is funded, and its
    /// collateral is locked from then on.
    pub open spec fn loan_wf(&self, loan_id: u128) -> bool {
        let loan = self.loan(loan_id);
        let total = self.total_invested(loan_id);
        &&& loan.id == loan_id
        &&& loan.requested_amount > 0
        &&& 0 <= total <= loan.requested_amount
        &&& loan.status == LoanStatus::Open ==> total < loan.requested_amount
        &&& loan.status != LoanStatus::Open ==> {
            &&& total == loan.requested_amount
            &&& loan.collateral is Some
            &&& loan.collateral->0.locked
        }
        &&& loan.collateral matches Some(collateral) ==> {
            &&& collateral.locked_amount > 0
            &&& collateral.property_id == loan.property_id
        }
    }

    /// The state is well formed.
    pub open spec fn wf(&self) -> bool {
        &&& investments_wf(self.investments@)
        &&& forall|i: int|
            0 <= i < self.investments@.len() ==> self.has_loan(
                (#[trigger] self.investments@[i]).loan_id,
            )
        &&& forall|loan_id: u128| #[trigger] self.has_loan(loan_id) ==> self.loan_wf(loan_id)
    }

    /// A contract without loans, whose escrow account is `escrow`.
    pub fn initialize(admin: Address, escrow: Address) -> (contract: LoanContract)
        ensures
            contract.wf(),
            contract.admin == admin,
            contract.escrow == escrow,
            contract.borrows@.len() == 0,
            contract.investments@.len() == 0,
    {
        LoanContract { admin, escrow, borrows: Vec::new(), investments: Vec::new() }
    }

    /// The loan with this id.
    pub fn get_loan(&self, loan_id: u128) -> (result: Result<BorrowRequest, Error>)
        ensures
            self.has_loan(loan_id) ==> result == Ok::<BorrowRequest, Error>(self.loan(loan_id)),
            !self.has_loan(loan_id) ==> result == Err::<BorrowRequest, Error>(
                Error::LoanNotFound,
            ),
    {
        if loan_id >= 1 && loan_id <= self.borrows.len() as u128 {
            let at: usize = (loan_id - 1) as usize;
            Ok(self.borrows[at])
        } else {
            Err(Error::LoanNotFound)
        }
    }

    /// The collateral of the loan with this id.
    pub fn get_collateral(&self, loan_id: u128) -> (result: Result<Collateral, Error>)
        ensures
            result == (if !self.has_loan(loan_id) {
                Err::<Collateral, Error>(Error::LoanNotFound)
            } else {
                match self.loan(loan_id).collateral {
                    Some(collateral) => Ok(collateral),
                    None => Err(Error::CollateralNotSet),
                }
            }),
    {
        match self.get_loan(loan_id) {
            Ok(loan) => match loan.collateral {
                Some(collateral) => Ok(collateral),
                None => Err(Error::CollateralNotSet),
            },
            Err(e) => Err(e),
        }
    }

    /// The sum invested in a loan, or `None` when it exceeds what an
    /// amount can hold.
    fn invested_checked(&self, loan_id: u128) -> (total: Option<i128>)
        requires
            forall|i: int|
                0 <= i < self.investments@.len() ==> (#[trigger] self.investments@[i]).amount > 0,
        ensures
            match total {
                Some(total) => total == self.total_invested(loan_id),
                None => self.total_invested(loan_id) > i128::MAX,
            },
    {
        let mut total: i128 = 0;
        let mut i: usize = 0;
        while i < self.investments.len()
            invariant
                i <= self.investments.len(),
                forall|i: int|
                    0 <= i < self.investments@.len() ==> (#[trigger] self.investments@[i]).amount
                        > 0,
                total == invested_in(self.investments@.take(i as int), loan_id),
            decreases self.investments.len() - i,
        {
            proof {
                let next = self.investments@.take(i + 1);
                assert(next.drop_last() =~= self.investments@.take(i as int));
                lemma_invested_prefix(self.investments@, i + 1, loan_id);
            }
            if self.investments[i].loan_id == loan_id {
                total = match total.checked_add(self.investments[i].amount) {
                    Some(sum) => sum,
                    None => {
                        return None;
                    },
                };
            }
            i = i + 1;
        }
        proof {
            assert(self.investments@.take(i as int) =~= self.investments@);
        }
        Some(total)
    }

    /// The sum invested in a loan so far; zero for a loan that does not
    /// exist.
    pub fn invested(&self, loan_id: u128) -> (total: i128)
        requires
            self.wf(),
        ensures
            total == self.total_invested(loan_id),
            0 <= total,
            self.has_loan(loan_id) ==> total <= self.loan(loan_id).requested_amount,
    {
        proof {
            if !self.has_loan(loan_id) {
                self.lemma_no_investment_in(loan_id);
            }
        }
        match self.invested_checked(loan_id) {
            Some(total) => total,
            None => 0,
        }
    }

    /// Whether the state is well formed. A state that was put together
    /// from stored parts is checked with this before it is used.
    pub fn is_well_formed(&self) -> (valid: bool)
        ensures
            valid == self.wf(),
    {
        let mut i: usize = 0;
        while i < self.investments.len()
            invariant
                i <= self.investments.len(),
                forall|a: int|
                    0 <= a < i ==> (#[trigger] self.investments@[a]).amount > 0 && self.has_loan(
                        self.investments@[a].loan_id,
                    ),
                forall|a: int, b: int|
                    0 <= a < b < i ==> !((#[trigger] self.investments@[a]).loan_id == (
                    #[trigger] self.investments@[b]).loan_id && self.investments@[a].investor
                        == self.investments@[b].investor),
            decreases self.investments.len() - i,
        {
            let stake = self.investments[i];
            if stake.amount <= 0 {
                return false;
            }
            if !(stake.loan_id >= 1 && stake.loan_id <= self.borrows.len() as u128) {
                return false;
            }
            let mut j: usize = 0;
            while j < i
                invariant
                    j <= i,
                    i < self.investments.len(),
                    stake == self.investments@[i as int],
                    forall|a: int|
                        0 <= a < j ==> !((#[trigger] self.investments@[a]).loan_id == stake.loan_id
                            && self.investments@[a].investor == stake.investor),
                decreases i - j,
            {
                if self.investments[j].loan_id == stake.loan_id && self.investments[j].investor
                    == stake.investor {
                    return false;
                }
                j = j + 1;
            }
            i = i + 1;
        }
        let mut k: usize = 0;
        while k < self.borrows.len()
            invariant
                k <= self.borrows.len(),
                investments_wf(self.investments@),
                forall|a: int|
                    0 <= a < self.investments@.len() ==> self.has_loan(
                        (#[trigger] self.investments@[a]).loan_id,
                    ),
                forall|loan_id: u128| 1 <= loan_id <= k ==> #[trigger] self.loan_wf(loan_id),
            decreases self.borrows.len() - k,
        {
            let id: u128 = k as u128 + 1;
            let loan = self.borrows[k];
            proof {
                assert(self.has_loan(id));
            }
            if loan.id != id || loan.requested_amount <= 0 {
                return false;
            }
            let total = match self.invested_checked(id) {
                Some(total) => total,
                None => {
                    return false;
                },
            };
            if total > loan.requested_amount {
                return false;
            }
            proof {
                lemma_invested_prefix(self.investments@, 0, id);
            }
            let funded = match loan.status {
                LoanStatus::Open => false,
                _ => true,
            };
            if !funded && total >= loan.requested_amount {
                return false;
            }
            match loan.collateral {
                Some(collateral) => {
                    if collateral.locked_amount <= 0 || collateral.property_id != loan.property_id {
                        return false;
                    }
                    if funded && (total != loan.requested_amount || !collateral.locked) {
                        return false;
                    }
                },
                None => {
                    if funded {
                        return false;
                    }
                },
            }
            k = k + 1;
        }
        true
    }

    /// Whether a loan in status `before` may be found in status `after`
    /// later: a loan moves from `Open` to `Funded` and from there to
    /// `Repaid` or `Defaulted`, and never back.
    pub open spec fn may_follow(before: LoanStatus, after: LoanStatus) -> bool {
        ||| after == before
        ||| before == LoanStatus::Open && after == LoanStatus::Funded
        ||| before == LoanStatus::Funded && after == LoanStatus::Repaid
        ||| before == LoanStatus::Funded && after == LoanStatus::Defaulted
    }

    /// Whether two records of a loan agree in the terms that were fixed
    /// when it was requested.
    pub open spec fn same_terms(before: BorrowRequest, after: BorrowRequest) -> bool {
        &&& after.id == before.id
        &&& after.property_id == before.property_id
        &&& after.builder == before.builder
        &&& after.requested_amount == before.requested_amount
        &&& after.repayment_amount == before.repayment_amount
        &&& after.duration_days == before.duration_days
        &&& after.maturity_timestamp == before.maturity_timestamp
        &&& after.apy == before.apy
        &&& after.price == before.price
        &&& after.percentual == before.percentual
    }

    /// Whether one operation can have led from the state `before` to the
    /// state `after`: no loan is lost, no loan changes its terms, a loan
    /// takes at most one step in its life and none back, a locked
    /// collateral stays as it is, and no investment is taken back.
    pub open spec fn advanced(before: &LoanContract, after: &LoanContract) -> bool {
        &&& after.admin == before.admin
        &&& after.escrow == before.escrow
        &&& before.borrows@.len() <= after.borrows@.len()
        &&& forall|loan_id: u128| #[trigger]
            before.has_loan(loan_id) ==> {
                &&& Self::same_terms(before.loan(loan_id), after.loan(loan_id))
                &&& Self::may_follow(before.loan(loan_id).status, after.loan(loan_id).status)
                &&& (before.loan(loan_id).collateral is Some && before.loan(
                    loan_id,
                ).collateral->0.locked) ==> after.loan(loan_id).collateral == before.loan(
                    loan_id,
                ).collateral
                &&& before.total_invested(loan_id) <= after.total_invested(loan_id)
            }
    }

    /// The state after loan `loan` took the place of the loan with its id
    /// and nothing else changed.
    pub open spec fn loan_replaced(
        before: &LoanContract,
        after: &LoanContract,
        loan: BorrowRequest,
    ) -> bool {
        &&& after.borrows@ == before.borrows@.update(loan.id - 1, loan)
        &&& after.admin == before.admin
        &&& after.escrow == before.escrow
    }

    /// Puts `loan` in the place of the loan with its id.
    fn put_loan(&mut self, loan: BorrowRequest)
        requires
            old(self).has_loan(loan.id),
        ensures
            Self::loan_replaced(old(self), final(self), loan),
            final(self).investments == old(self).investments,
    {
        assert(loan.id - 1 < self.borrows.len());
        let at: usize = (loan.id - 1) as usize;
        self.borrows.set(at, loan);
    }

    /// Replacing one loan by a well-formed one keeps the state well
    /// formed, as long as the investments in the other loans stay.
    proof fn lemma_wf_after(before: &LoanContract, after: &LoanContract, loan: BorrowRequest)
        requires
            before.wf(),
            before.has_loan(loan.id),
            Self::loan_replaced(before, after, loan),
            investments_wf(after.investments@),
            forall|i: int|
                0 <= i < after.investments@.len() ==> after.has_loan(
                    (#[trigger] after.investments@[i]).loan_id,
                ),
            forall|loan_id: u128|
                loan_id != loan.id ==> #[trigger] invested_in(after.investments@, loan_id)
                    == invested_in(before.investments@, loan_id),
            after.loan_wf(loan.id),
        ensures
            after.wf(),
    {
        assert forall|loan_id: u128| #[trigger] after.has_loan(loan_id) implies after.loan_wf(
            loan_id,
        ) by {
            if loan_id != loan.id {
                assert(before.has_loan(loan_id));
            }
        }
    }

    /// Replacing one loan by a later record of it is a step of the state,
    /// as long as no investment is taken back.
    proof fn lemma_advanced_by(before: &LoanContract, after: &LoanContract, loan: BorrowRequest)
        requires
            before.wf(),
            before.has_loan(loan.id),
            Self::loan_replaced(before, after, loan),
            Self::same_terms(before.loan(loan.id), loan),
            Self::may_follow(before.loan(loan.id).status, loan.status),
            (before.loan(loan.id).collateral is Some && before.loan(loan.id).collateral->0.locked)
                ==> loan.collateral == before.loan(loan.id).collateral,
            forall|loan_id: u128|
                #[trigger] invested_in(before.investments@, loan_id) <= invested_in(
                    after.investments@,
                    loan_id,
                ),
        ensures
            Self::advanced(before, after),
    {
    }

    /// Nothing is invested in a loan that does not exist.
    pub proof fn lemma_no_investment_in(&self, loan_id: u128)
        requires
            self.wf(),
            !self.has_loan(loan_id),
        ensures
            self.total_invested(loan_id) == 0,
    {
        Self::lemma_none_invested(self.investments@, loan_id);
    }

    /// Investments in other loans add nothing to the total of a loan.
    proof fn lemma_none_invested(investments: Seq<Investment>, loan_id: u128)
        requires
            forall|i: int| 0 <= i < investments.len() ==> (#[trigger] investments[i]).loan_id
                != loan_id,
        ensures
            invested_in(investments, loan_id) == 0,
        decreases investments.len(),
    {
        if investments.len() > 0 {
            let front = investments.drop_last();
            Self::lemma_none_invested(front, loan_id);
        }
    }
}

} // verus!
