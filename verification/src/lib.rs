//! A ledger of fractional property units and the loans secured by them.
//!
//! A builder registers a property and receives its units. Units move
//! between holders by transfers that deduct a protocol fee and conserve the
//! supply of every property. A builder borrows against a property: the
//! request is funded by investors up to the requested amount, the pledged
//! units are locked in escrow when the amount is reached, and they go back
//! to the builder on repayment or to the investors on default.
//!
//! The library keeps no state of its own. Every operation takes the state
//! it works on, the authorizations of the call and, where time matters, the
//! current instant; it changes the state as a whole or not at all.

pub mod address;
pub mod arith;
pub mod auth;
pub mod error;
pub mod ledger;
pub mod loan;
pub mod token;

pub use address::{Address, AddressKind};
pub use auth::Authorizer;
pub use error::{Error, ErrorGroup};
pub use ledger::{BalanceEntry, Ledger};
pub use loan::escrow::Distribution;
pub use loan::{BorrowRequest, Collateral, Investment, LoanContract, LoanStatus, Payout};
pub use token::{Property, RealEstateTokenContract, TransferReceipt};
