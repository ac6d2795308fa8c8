//! Borrow requests: the terms of a property are frozen into a request when
//! it is made.

use vstd::prelude::*;
use crate::address::Address;
use crate::arith::{flat_interest, interest_on};
use crate::auth::Authorizer;
use crate::error::Error;
use crate::loan::{BorrowRequest, LoanContract, LoanStatus, SECONDS_PER_DAY};
use crate::token::{percentual_of, price_of, RealEstateTokenContract};

verus! {

/// The instant at which a loan made at `now` for `duration_days` matures.
pub open spec fn maturity_of(now: u64, duration_days: u32) -> int {
    now + duration_days * SECONDS_PER_DAY
}

/// The amount owed for `requested` at `apy` basis points.
pub open spec fn repayment_of(requested: int, apy: u32) -> int {
    requested + flat_interest(requested, apy as int)
}

/// The borrow requests that mature after `now`, in order of creation.
pub open spec fn maturing_after(borrows: Seq<BorrowRequest>, now: u64) -> Seq<BorrowRequest>
    decreases borrows.len(),
{
    if borrows.len() == 0 {
        Seq::empty()
    } else if borrows.last().maturity_timestamp > now {
        maturing_after(borrows.drop_last(), now).push(borrows.last())
    } else {
        maturing_after(borrows.drop_last(), now)
    }
}

/// Reads the system clock: `std::time::SystemTime::now()`, turned into a
/// `chrono::DateTime<Utc>` by chrono's `From<SystemTime>`, of which the
/// `timestamp()` is returned: whole seconds since the start of 1970 in UTC,
/// negative for a clock set before it. The conversion is defined on the
/// instants chrono can hold, which reach about 262,000 years to either side
/// of 1970. Nothing is claimed of the value; two readings may differ in any
/// way.
#[verifier::external_body]
fn system_seconds() -> (seconds: i64) {
    chrono::DateTime::<chrono::Utc>::from(std::time::SystemTime::now()).timestamp()
}

/// The instant the system clock shows, in seconds since the epoch: the
/// instant of what the clock returned, whatever that is.
fn clock_seconds() -> (now: u64)
    ensures
        exists|reading: i64| now == #[trigger] instant_of(reading),
{
    let seconds = system_seconds();
    let now: u64 = if seconds < 0 {
        0
    } else {
        seconds as u64
    };
    assert(now == instant_of(seconds));
    now
}

/// The instant that a reading of the clock stands for: the reading itself,
/// and the epoch for a reading before it.
pub open spec fn instant_of(reading: i64) -> u64 {
    if reading < 0 {
        0
    } else {
        reading as u64
    }
}

/// No reading of the clock is so late that a loan made at it matures
/// beyond what an instant can hold, however long the loan runs.
pub proof fn lemma_clock_leaves_room(reading: i64, duration_days: u32)
    ensures
        maturity_of(instant_of(reading), duration_days) <= u64::MAX,
{
}

impl LoanContract {
    /// What a borrow request answers: the new loan, or why it is refused.
    pub open spec fn create_borrow_outcome(
        &self,
        auth: Set<Address>,
        token: &RealEstateTokenContract,
        builder: Address,
        property_id: u128,
        duration_days: u32,
        apy: u32,
        now: u64,
    ) -> Result<BorrowRequest, Error> {
        if !auth.contains(builder) {
            Err(Error::Unauthorized)
        } else if !token.has_property(property_id) {
            Err(Error::InvalidProperty)
        } else if token.property(property_id).builder != builder {
            Err(Error::Unauthorized)
        } else if maturity_of(now, duration_days) > u64::MAX || repayment_of(
            token.property(property_id).wanted as int,
            apy,
        ) > i128::MAX {
            Err(Error::InvalidTerms)
        } else {
            Ok(
                BorrowRequest {
                    id: (self.borrows@.len() + 1) as u128,
                    property_id,
                    builder,
                    requested_amount: token.property(property_id).wanted,
                    repayment_amount: repayment_of(
                        token.property(property_id).wanted as int,
                        apy,
                    ) as i128,
                    duration_days,
                    maturity_timestamp: maturity_of(now, duration_days) as u64,
                    apy,
                    price: price_of(token.property(property_id)) as i128,
                    percentual: percentual_of(token.property(property_id)) as i128,
                    status: LoanStatus::Open,
                    collateral: None,
                },
            )
        }
    }

    /// How the state and the answer of a borrow request follow from its
    /// outcome: an accepted request is added after the others and its id
    /// returned, a refused one changes nothing.
    pub open spec fn borrow_opened(
        before: &LoanContract,
        after: &LoanContract,
        result: Result<u128, Error>,
        outcome: Result<BorrowRequest, Error>,
    ) -> bool {
        match outcome {
            Ok(loan) => {
                &&& result == Ok::<u128, Error>(loan.id)
                &&& after.borrows@ == before.borrows@.push(loan)
                &&& after.investments == before.investments
                &&& after.admin == before.admin
                &&& after.escrow == before.escrow
            },
            Err(e) => result == Err::<u128, Error>(e) && *after == *before,
        }
    }

    /// Opens a borrow request of `builder` against its property, as of the
    /// instant `now`. The terms are read from the property once: the
    /// requested amount is the valuation the property is looking for.
    pub fn create_borrow_at(
        &mut self,
        auth: &Authorizer,
        token: &RealEstateTokenContract,
        builder: Address,
        property_id: u128,
        duration_days: u32,
        apy: u32,
        now: u64,
    ) -> (result: Result<u128, Error>)
        requires
            old(self).wf(),
            token.wf(),
        ensures
            final(self).wf(),
            Self::advanced(old(self), final(self)),
            Self::borrow_opened(
                old(self),
                final(self),
                result,
                old(self).create_borrow_outcome(
                    auth@,
                    token,
                    builder,
                    property_id,
                    duration_days,
                    apy,
                    now,
                ),
            ),
    {
        if !auth.authorizes(builder) {
            return Err(Error::Unauthorized);
        }
        let property = match token.get_property(property_id) {
            Ok(property) => property,
            Err(e) => {
                return Err(e);
            },
        };
        if property.builder != builder {
            return Err(Error::Unauthorized);
        }
        let span: u64 = duration_days as u64 * SECONDS_PER_DAY;
        let maturity_timestamp = match now.checked_add(span) {
            Some(at) => at,
            None => {
                return Err(Error::InvalidTerms);
            },
        };
        let requested_amount = property.wanted;
        let repayment_amount = match interest_on(requested_amount, apy) {
            Some(interest) => match requested_amount.checked_add(interest) {
                Some(owed) => owed,
                None => {
                    return Err(Error::InvalidTerms);
                },
            },
            None => {
                return Err(Error::InvalidTerms);
            },
        };
        let id: u128 = self.borrows.len() as u128 + 1;
        let loan = BorrowRequest {
            id,
            property_id,
            builder,
            requested_amount,
            repayment_amount,
            duration_days,
            maturity_timestamp,
            apy,
            price: RealEstateTokenContract::price(property),
            percentual: RealEstateTokenContract::percentual(property),
            status: LoanStatus::Open,
            collateral: None,
        };
        proof {
            self.lemma_no_investment_in(id);
        }
        self.borrows.push(loan);
        proof {
            assert forall|loan_id: u128| #[trigger] self.has_loan(loan_id) implies self.loan_wf(
                loan_id,
            ) by {
                if loan_id != id {
                    assert(old(self).has_loan(loan_id));
                }
            }
        }
        Ok(id)
    }

    /// Whether a borrow request is accepted at what the system clock
    /// shows. The clock decides nothing of it: the builder has authorized
    /// the call and registered the property, and the amount owed fits.
    pub open spec fn create_borrow_accepted(
        &self,
        auth: Set<Address>,
        token: &RealEstateTokenContract,
        builder: Address,
        property_id: u128,
        apy: u32,
    ) -> bool {
        &&& auth.contains(builder)
        &&& token.has_property(property_id)
        &&& token.property(property_id).builder == builder
        &&& repayment_of(token.property(property_id).wanted as int, apy) <= i128::MAX
    }

    /// Why a borrow request that is not accepted at what the system clock
    /// shows is refused.
    pub open spec fn create_borrow_refusal(
        auth: Set<Address>,
        token: &RealEstateTokenContract,
        builder: Address,
        property_id: u128,
    ) -> Error {
        if !auth.contains(builder) {
            Error::Unauthorized
        } else if !token.has_property(property_id) {
            Error::InvalidProperty
        } else if token.property(property_id).builder != builder {
            Error::Unauthorized
        } else {
            Error::InvalidTerms
        }
    }

    /// Opens a borrow request of `builder` against its property, as of the
    /// instant the system clock shows. It does what `create_borrow_at` does
    /// for the instant of what the clock returned. Whether the request is
    /// accepted does not depend on the clock; only the maturity does.
    pub fn create_borrow(
        &mut self,
        auth: &Authorizer,
        token: &RealEstateTokenContract,
        builder: Address,
        property_id: u128,
        duration_days: u32,
        apy: u32,
    ) -> (result: Result<u128, Error>)
        requires
            old(self).wf(),
            token.wf(),
        ensures
            final(self).wf(),
            Self::advanced(old(self), final(self)),
            exists|reading: i64|
                Self::borrow_opened(
                    old(self),
                    final(self),
                    result,
                    #[trigger] old(self).create_borrow_outcome(
                        auth@,
                        token,
                        builder,
                        property_id,
                        duration_days,
                        apy,
                        instant_of(reading),
                    ),
                ),
            old(self).create_borrow_accepted(auth@, token, builder, property_id, apy)
                ==> result == Ok::<u128, Error>((old(self).borrows@.len() + 1) as u128),
            !old(self).create_borrow_accepted(auth@, token, builder, property_id, apy) ==> {
                &&& result == Err::<u128, Error>(
                    Self::create_borrow_refusal(auth@, token, builder, property_id),
                )
                &&& *final(self) == *old(self)
            },
    {
        let now = clock_seconds();
        proof {
            let reading = choose|reading: i64| now == instant_of(reading);
            lemma_clock_leaves_room(reading, duration_days);
        }
        self.create_borrow_at(auth, token, builder, property_id, duration_days, apy, now)
    }

    /// The borrow requests that mature after `now`, in order of creation.
    pub fn get_borrows_at(&self, now: u64) -> (borrows: Vec<BorrowRequest>)
        ensures
            borrows@ == maturing_after(self.borrows@, now),
    {
        let mut borrows: Vec<BorrowRequest> = Vec::new();
        let mut i: usize = 0;
        while i < self.borrows.len()
            invariant
                i <= self.borrows.len(),
                borrows@ == maturing_after(self.borrows@.take(i as int), now),
            decreases self.borrows.len() - i,
        {
            proof {
                let next = self.borrows@.take(i + 1);
                assert(next.drop_last() =~= self.borrows@.take(i as int));
            }
            if self.borrows[i].maturity_timestamp > now {
                borrows.push(self.borrows[i]);
            }
            i = i + 1;
        }
        proof {
            assert(self.borrows@.take(i as int) =~= self.borrows@);
        }
        borrows
    }

    /// The borrow requests that mature after the instant the system clock
    /// shows, in order of creation: what `get_borrows_at` gives for the
    /// instant of what the clock returned.
    pub fn get_borrows(&self) -> (borrows: Vec<BorrowRequest>)
        ensures
            exists|reading: i64|
                borrows@ == #[trigger] maturing_after(self.borrows@, instant_of(reading)),
    {
        let now = clock_seconds();
        self.get_borrows_at(now)
    }
}

} // verus!
