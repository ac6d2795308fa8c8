//! Why an operation was refused.

use vstd::prelude::*;

verus! {

/// The reason an operation was refused. A refused operation changes nothing.
#[derive(Clone, Copy, Debug, PartialEq, Eq, Structural)]
pub enum Error {
    /// The caller lacks the authority the operation needs.
    Unauthorized,
    /// The holder owns fewer units than the operation moves.
    InsufficientBalance,
    /// The property is already registered.
    PropertyExists,
    /// The property is unknown, or its figures are unusable.
    InvalidProperty,
    /// The amount is not positive, or a rate is out of range.
    InvalidAmount,
    /// No loan has the given id.
    LoanNotFound,
    /// The terms cannot be met: over the funding cap, past the grace
    /// period, or not representable.
    InvalidTerms,
    /// The loan is not in the state the operation needs.
    LoanNotActive,
    /// The loan has been repaid.
    LoanAlreadyRepaid,
    /// The loan has no collateral in escrow.
    CollateralNotSet,
    /// The collateral amount is not positive.
    InvalidCollateralAmount,
    /// The collateral of the loan is locked already.
    TokensAlreadyLocked,
    /// The loan has not reached its requested amount.
    LoanNotFullyFunded,
    /// The loan has not reached its maturity.
    LoanNotMatured,
}

/// Where an error comes from.
#[derive(Clone, Copy, Debug, PartialEq, Eq, Structural)]
pub enum ErrorGroup {
    Authorization,
    InputValidation,
    LedgerState,
    LoanState,
    EscrowState,
}

impl Error {
    /// The number under which the error is reported to callers.
    ///
    /// Errors of the property ledger are numbered from 1001, those of the
    /// loan lifecycle from 2003.
    pub open spec fn code_of(self) -> u32 {
        match self {
            Error::Unauthorized => 1001,
            Error::InsufficientBalance => 1002,
            Error::PropertyExists => 1003,
            Error::InvalidProperty => 1004,
            Error::InvalidAmount => 1005,
            Error::LoanNotFound => 2003,
            Error::InvalidTerms => 2004,
            Error::LoanNotActive => 2005,
            Error::LoanAlreadyRepaid => 2006,
            Error::CollateralNotSet => 2007,
            Error::InvalidCollateralAmount => 2008,
            Error::TokensAlreadyLocked => 2009,
            Error::LoanNotFullyFunded => 2010,
            Error::LoanNotMatured => 2011,
        }
    }

    /// The group an error belongs to.
    pub open spec fn group_of(self) -> ErrorGroup {
        match self {
            Error::Unauthorized => ErrorGroup::Authorization,
            Error::InvalidAmount
            | Error::InvalidProperty
            | Error::PropertyExists
            | Error::InvalidTerms
            | Error::InvalidCollateralAmount => ErrorGroup::InputValidation,
            Error::InsufficientBalance => ErrorGroup::LedgerState,
            Error::LoanNotFound
            | Error::LoanNotActive
            | Error::LoanAlreadyRepaid
            | Error::LoanNotFullyFunded
            | Error::LoanNotMatured => ErrorGroup::LoanState,
            Error::CollateralNotSet | Error::TokensAlreadyLocked => ErrorGroup::EscrowState,
        }
    }

    /// The number under which the error is reported to callers.
    pub fn code(self) -> (c: u32)
        ensures
            c == self.code_of(),
    {
        match self {
            Error::Unauthorized => 1001,
            Error::InsufficientBalance => 1002,
            Error::PropertyExists => 1003,
            Error::InvalidProperty => 1004,
            Error::InvalidAmount => 1005,
            Error::LoanNotFound => 2003,
            Error::InvalidTerms => 2004,
            Error::LoanNotActive => 2005,
            Error::LoanAlreadyRepaid => 2006,
            Error::CollateralNotSet => 2007,
            Error::InvalidCollateralAmount => 2008,
            Error::TokensAlreadyLocked => 2009,
            Error::LoanNotFullyFunded => 2010,
            Error::LoanNotMatured => 2011,
        }
    }

    /// The group an error belongs to.
    pub fn group(self) -> (g: ErrorGroup)
        ensures
            g == self.group_of(),
    {
        match self {
            Error::Unauthorized => ErrorGroup::Authorization,
            Error::InvalidAmount
            | Error::InvalidProperty
            | Error::PropertyExists
            | Error::InvalidTerms
            | Error::InvalidCollateralAmount => ErrorGroup::InputValidation,
            Error::InsufficientBalance => ErrorGroup::LedgerState,
            Error::LoanNotFound
            | Error::LoanNotActive
            | Error::LoanAlreadyRepaid
            | Error::LoanNotFullyFunded
            | Error::LoanNotMatured => ErrorGroup::LoanState,
            Error::CollateralNotSet | Error::TokensAlreadyLocked => ErrorGroup::EscrowState,
        }
    }

    /// Distinct errors are reported under distinct numbers.
    pub proof fn lemma_codes_distinct(a: Error, b: Error)
        ensures
            a.code_of() == b.code_of() ==> a == b,
    {
    }
}

} // verus!
