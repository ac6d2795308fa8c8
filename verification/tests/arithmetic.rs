use rwa_lending::arith::{fee_on, interest_on, mul_div_floor, quotient, share_on};
use rwa_lending::{Error, ErrorGroup};

#[test]
fn mul_div_floor_is_exact_beyond_the_width_of_the_product() {
    assert_eq!(mul_div_floor(0, 5, 7), 0);
    assert_eq!(mul_div_floor(7, 5, 7), 5);
    assert_eq!(mul_div_floor(3, 5, 7), 2);
    assert_eq!(mul_div_floor(1, 6, 7), 0);
    assert_eq!(mul_div_floor(1, 7, 7), 1);
    assert_eq!(mul_div_floor(250, 1000, 10000), 25);
    assert_eq!(mul_div_floor(u128::MAX, u128::MAX, u128::MAX), u128::MAX);
    assert_eq!(mul_div_floor(u128::MAX - 1, u128::MAX, u128::MAX), u128::MAX - 1);
    assert_eq!(mul_div_floor(u128::MAX - 1, u128::MAX - 1, u128::MAX), u128::MAX - 2);
    assert_eq!(mul_div_floor(1 << 100, 1 << 100, 1 << 101), 1 << 99);
    assert_eq!(mul_div_floor(3, u128::MAX, 4), (u128::MAX / 4) * 3 + 2);
}

#[test]
fn fee_is_rounded_down() {
    assert_eq!(fee_on(1000, 250), 25);
    assert_eq!(fee_on(1000, 0), 0);
    assert_eq!(fee_on(0, 250), 0);
    assert_eq!(fee_on(39, 250), 0);
    assert_eq!(fee_on(40, 250), 1);
    assert_eq!(fee_on(1, 9999), 0);
    assert_eq!(fee_on(77, 10000), 77);
    assert_eq!(fee_on(i128::MAX, 1000), i128::MAX / 10);
}

#[test]
fn share_is_rounded_down() {
    assert_eq!(share_on(100, 31, 300), 10);
    assert_eq!(share_on(200, 31, 300), 20);
    assert_eq!(share_on(300, 31, 300), 31);
    assert_eq!(share_on(0, 31, 300), 0);
    assert_eq!(share_on(1, 299, 300), 0);
    assert_eq!(share_on(i128::MAX, i128::MAX, i128::MAX), i128::MAX);
}

#[test]
fn interest_is_flat_and_checked() {
    assert_eq!(interest_on(5000, 1000), Some(500));
    assert_eq!(interest_on(999, 15), Some(1));
    assert_eq!(interest_on(999, 25000), Some(2497));
    assert_eq!(interest_on(0, u32::MAX), Some(0));
    assert_eq!(interest_on(i128::MAX, 10000), Some(i128::MAX));
    assert_eq!(interest_on(i128::MAX, 10001), None);
    assert_eq!(interest_on(i128::MAX, u32::MAX), None);
}

#[test]
fn quotient_rounds_toward_zero() {
    assert_eq!(quotient(7, 2), 3);
    assert_eq!(quotient(-7, 2), -3);
    assert_eq!(quotient(7, -2), -3);
    assert_eq!(quotient(-7, -2), 3);
    assert_eq!(quotient(0, -2), 0);
    assert_eq!(quotient(i128::MIN, 1), i128::MIN);
    assert_eq!(quotient(i128::MIN, 2), i128::MIN / 2);
    assert_eq!(quotient(i128::MAX, -1), -i128::MAX);
    assert_eq!(quotient(i128::MIN, i128::MIN), 1);
    assert_eq!(quotient(i128::MAX, i128::MIN), 0);
}

#[test]
fn every_error_has_its_code_and_group() {
    let table = [
        (Error::Unauthorized, 1001, ErrorGroup::Authorization),
        (Error::InsufficientBalance, 1002, ErrorGroup::LedgerState),
        (Error::PropertyExists, 1003, ErrorGroup::InputValidation),
        (Error::InvalidProperty, 1004, ErrorGroup::InputValidation),
        (Error::InvalidAmount, 1005, ErrorGroup::InputValidation),
        (Error::LoanNotFound, 2003, ErrorGroup::LoanState),
        (Error::InvalidTerms, 2004, ErrorGroup::InputValidation),
        (Error::LoanNotActive, 2005, ErrorGroup::LoanState),
        (Error::LoanAlreadyRepaid, 2006, ErrorGroup::LoanState),
        (Error::CollateralNotSet, 2007, ErrorGroup::EscrowState),
        (Error::InvalidCollateralAmount, 2008, ErrorGroup::InputValidation),
        (Error::TokensAlreadyLocked, 2009, ErrorGroup::EscrowState),
        (Error::LoanNotFullyFunded, 2010, ErrorGroup::LoanState),
        (Error::LoanNotMatured, 2011, ErrorGroup::LoanState),
    ];
    for (error, code, group) in table {
        assert_eq!(error.code(), code);
        assert_eq!(error.group(), group);
    }
}
