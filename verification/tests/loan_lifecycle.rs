use rwa_lending::{
    Address, Authorizer, BorrowRequest, Collateral, Error, Investment, LoanContract, LoanStatus,
    Payout, RealEstateTokenContract,
};

const T0: u64 = 1_700_000_000;
const DAY: u64 = 86400;

fn admin() -> Address {
    Address::account(0, 1)
}

fn escrow() -> Address {
    Address::contract(9, 9)
}

fn ann() -> Address {
    Address::account(0, 10)
}

fn ben() -> Address {
    Address::account(0, 11)
}

fn cat() -> Address {
    Address::account(0, 12)
}

fn treasury() -> Address {
    Address::account(5, 5)
}

fn as_admin() -> Authorizer {
    Authorizer::of(admin())
}

/// A token with one property of `supply` units that looks for `wanted`.
fn token_with(wanted: i128, supply: i128) -> RealEstateTokenContract {
    let mut token =
        RealEstateTokenContract::initialize(admin(), "Tower".to_string(), "TWR".to_string(), 0);
    token
        .register_property(
            &as_admin(),
            admin(),
            "Tower One".to_string(),
            wanted,
            0,
            supply,
            "Acme Build".to_string(),
            "ipfs://tower".to_string(),
            "TW1".to_string(),
        )
        .unwrap();
    token
}

/// A loan of 30 days at `T0` on property 1, with `locked` units pledged.
fn open_loan(token: &RealEstateTokenContract, locked: i128) -> (LoanContract, u128) {
    let mut loans = LoanContract::initialize(admin(), escrow());
    let id = loans.create_borrow_at(&as_admin(), token, admin(), 1, 30, 1000, T0).unwrap();
    loans.set_collateral(&as_admin(), token, admin(), id, locked).unwrap();
    (loans, id)
}

fn funded_loan(token: &mut RealEstateTokenContract) -> (LoanContract, u128) {
    let (mut loans, id) = open_loan(token, 31);
    assert_eq!(loans.create_loan(token, id, ann(), 100), Ok(LoanStatus::Open));
    assert_eq!(loans.create_loan(token, id, ben(), 200), Ok(LoanStatus::Funded));
    (loans, id)
}

#[test]
fn create_borrow_freezes_the_terms_of_the_property() {
    let mut token =
        RealEstateTokenContract::initialize(admin(), "Tower".to_string(), "TWR".to_string(), 0);
    token
        .register_property(
            &as_admin(),
            admin(),
            "Tower One".to_string(),
            5000,
            12000,
            1500,
            "Acme Build".to_string(),
            "ipfs://tower".to_string(),
            "TW1".to_string(),
        )
        .unwrap();
    let mut loans = LoanContract::initialize(admin(), escrow());
    let id = loans.create_borrow_at(&as_admin(), &token, admin(), 1, 365, 1000, T0).unwrap();
    assert_eq!(id, 1);
    let loan = loans.get_loan(id).unwrap();
    assert_eq!(
        loan,
        BorrowRequest {
            id: 1,
            property_id: 1,
            builder: admin(),
            requested_amount: 5000,
            repayment_amount: 5500,
            duration_days: 365,
            maturity_timestamp: T0 + 365 * DAY,
            apy: 1000,
            price: 3,
            percentual: 2,
            status: LoanStatus::Open,
            collateral: None,
        }
    );
    let second = loans.create_borrow_at(&as_admin(), &token, admin(), 1, 1, 0, T0).unwrap();
    assert_eq!(second, 2);
    assert_eq!(loans.get_loan(2).unwrap().repayment_amount, 5000);
    assert_eq!(loans.get_loan(3), Err(Error::LoanNotFound));
    assert_eq!(loans.get_loan(0), Err(Error::LoanNotFound));
}

#[test]
fn create_borrow_rounds_the_interest_down() {
    let token = token_with(999, 10);
    let mut loans = LoanContract::initialize(admin(), escrow());
    let id = loans.create_borrow_at(&as_admin(), &token, admin(), 1, 10, 15, T0).unwrap();
    // 999 * 15 / 10000 = 1.4985
    assert_eq!(loans.get_loan(id).unwrap().repayment_amount, 1000);
    let id = loans.create_borrow_at(&as_admin(), &token, admin(), 1, 10, 25000, T0).unwrap();
    // 999 * 25000 / 10000 = 2497.5
    assert_eq!(loans.get_loan(id).unwrap().repayment_amount, 999 + 2497);
}

#[test]
fn create_borrow_rejects_unauthorized_and_unknown() {
    let token = token_with(300, 1000);
    let mut loans = LoanContract::initialize(admin(), escrow());
    assert_eq!(
        loans.create_borrow_at(&Authorizer::none(), &token, admin(), 1, 30, 1000, T0),
        Err(Error::Unauthorized)
    );
    assert_eq!(
        loans.create_borrow_at(&Authorizer::of(ann()), &token, ann(), 1, 30, 1000, T0),
        Err(Error::Unauthorized)
    );
    assert_eq!(
        loans.create_borrow_at(&as_admin(), &token, admin(), 2, 30, 1000, T0),
        Err(Error::InvalidProperty)
    );
    assert_eq!(
        loans.create_borrow_at(&Authorizer::none(), &token, admin(), 2, 30, 1000, T0),
        Err(Error::Unauthorized)
    );
    assert!(loans.borrows.is_empty());
}

#[test]
fn create_borrow_rejects_terms_that_do_not_fit() {
    let token = token_with(i128::MAX, 10);
    let mut loans = LoanContract::initialize(admin(), escrow());
    assert_eq!(
        loans.create_borrow_at(&as_admin(), &token, admin(), 1, 30, 1, T0),
        Err(Error::InvalidTerms)
    );
    assert_eq!(
        loans.create_borrow_at(&as_admin(), &token, admin(), 1, 30, u32::MAX, T0),
        Err(Error::InvalidTerms)
    );
    assert_eq!(
        loans.create_borrow_at(&as_admin(), &token, admin(), 1, 1, 0, u64::MAX - DAY + 1),
        Err(Error::InvalidTerms)
    );
    assert_eq!(
        loans.create_borrow_at(&as_admin(), &token, admin(), 1, 1, 0, u64::MAX - DAY),
        Ok(1)
    );
    assert_eq!(loans.get_loan(1).unwrap().maturity_timestamp, u64::MAX);
    assert_eq!(loans.get_loan(1).unwrap().repayment_amount, i128::MAX);
}

#[test]
fn create_borrow_reads_the_clock() {
    let token = token_with(300, 1000);
    let mut loans = LoanContract::initialize(admin(), escrow());
    let id = loans.create_borrow(&as_admin(), &token, admin(), 1, 2, 0).unwrap();
    let loan = loans.get_loan(id).unwrap();
    assert!(loan.maturity_timestamp > T0 + 2 * DAY);
    assert_eq!(loan.requested_amount, 300);
    assert_eq!(loans.get_borrows(), vec![loan]);
    assert_eq!(
        loans.create_borrow(&Authorizer::none(), &token, admin(), 1, 2, 0),
        Err(Error::Unauthorized)
    );
}

#[test]
fn create_borrow_does_not_depend_on_the_clock_for_its_answer() {
    let token = token_with(300, 1000);
    let mut loans = LoanContract::initialize(admin(), escrow());
    assert_eq!(loans.create_borrow(&as_admin(), &token, admin(), 1, u32::MAX, 0), Ok(1));
    assert_eq!(loans.create_borrow(&as_admin(), &token, admin(), 1, 1, u32::MAX), Ok(2));
    let long = loans.get_loan(1).unwrap();
    assert!(long.maturity_timestamp > T0 + u32::MAX as u64 * DAY);
    assert_eq!(long.duration_days, u32::MAX);
    assert_eq!(
        loans.create_borrow(&as_admin(), &token, admin(), 2, 1, 0),
        Err(Error::InvalidProperty)
    );
    assert_eq!(
        loans.create_borrow(&Authorizer::of(ann()), &token, ann(), 1, 1, 0),
        Err(Error::Unauthorized)
    );
    assert_eq!(loans.borrows.len(), 2);
    assert_eq!(loans.get_borrows().len(), 2);

    let huge = token_with(i128::MAX, 10);
    let mut others = LoanContract::initialize(admin(), escrow());
    assert_eq!(
        others.create_borrow(&as_admin(), &huge, admin(), 1, 1, 1),
        Err(Error::InvalidTerms)
    );
    assert_eq!(others.create_borrow(&as_admin(), &huge, admin(), 1, 1, 0), Ok(1));
    assert!(others.get_borrows_at(u64::MAX).is_empty());
}

#[test]
fn get_borrows_at_keeps_what_matures_later() {
    let token = token_with(300, 1000);
    let mut loans = LoanContract::initialize(admin(), escrow());
    loans.create_borrow_at(&as_admin(), &token, admin(), 1, 10, 0, T0).unwrap();
    loans.create_borrow_at(&as_admin(), &token, admin(), 1, 1, 0, T0).unwrap();
    loans.create_borrow_at(&as_admin(), &token, admin(), 1, 5, 0, T0).unwrap();
    let ids = |now: u64| -> Vec<u128> { loans.get_borrows_at(now).iter().map(|b| b.id).collect() };
    assert_eq!(ids(T0), vec![1, 2, 3]);
    assert_eq!(ids(T0 + DAY - 1), vec![1, 2, 3]);
    assert_eq!(ids(T0 + DAY), vec![1, 3]);
    assert_eq!(ids(T0 + 5 * DAY), vec![1]);
    assert_eq!(ids(T0 + 10 * DAY), Vec::<u128>::new());
}

#[test]
fn set_collateral_guards() {
    let token = token_with(300, 1000);
    let mut loans = LoanContract::initialize(admin(), escrow());
    let id = loans.create_borrow_at(&as_admin(), &token, admin(), 1, 30, 0, T0).unwrap();
    assert_eq!(
        loans.set_collateral(&Authorizer::none(), &token, admin(), id, 31),
        Err(Error::Unauthorized)
    );
    assert_eq!(
        loans.set_collateral(&as_admin(), &token, admin(), 7, 31),
        Err(Error::LoanNotFound)
    );
    assert_eq!(
        loans.set_collateral(&Authorizer::of(ann()), &token, ann(), id, 31),
        Err(Error::Unauthorized)
    );
    assert_eq!(
        loans.set_collateral(&as_admin(), &token, admin(), id, 0),
        Err(Error::InvalidCollateralAmount)
    );
    assert_eq!(
        loans.set_collateral(&as_admin(), &token, admin(), id, -4),
        Err(Error::InvalidCollateralAmount)
    );
    assert_eq!(
        loans.set_collateral(&as_admin(), &token, admin(), id, 1001),
        Err(Error::InsufficientBalance)
    );
    assert_eq!(loans.get_collateral(id), Err(Error::CollateralNotSet));
    assert_eq!(loans.get_collateral(7), Err(Error::LoanNotFound));
    let expected = Collateral { property_id: 1, locked_amount: 31, locked: false };
    assert_eq!(loans.set_collateral(&as_admin(), &token, admin(), id, 31), Ok(expected));
    assert_eq!(loans.get_collateral(id), Ok(expected));
    assert_eq!(token.get_balance(admin(), 1), 1000);
}

#[test]
fn investments_accumulate_per_investor() {
    let mut token = token_with(300, 1000);
    let (mut loans, id) = open_loan(&token, 31);
    assert_eq!(loans.create_loan(&mut token, id, ann(), 50), Ok(LoanStatus::Open));
    assert_eq!(loans.create_loan(&mut token, id, ben(), 70), Ok(LoanStatus::Open));
    assert_eq!(loans.create_loan(&mut token, id, ann(), 30), Ok(LoanStatus::Open));
    assert_eq!(loans.get_investment(id, ann()), Ok(80));
    assert_eq!(loans.get_investment(id, ben()), Ok(70));
    assert_eq!(loans.get_investment(id, cat()), Ok(0));
    assert_eq!(loans.get_investment(9, ann()), Err(Error::LoanNotFound));
    assert_eq!(loans.get_investors(id), Ok(vec![ann(), ben()]));
    assert_eq!(loans.get_investors(9), Err(Error::LoanNotFound));
    assert_eq!(loans.invested(id), 150);
    assert_eq!(
        loans.investments,
        vec![
            Investment { loan_id: id, investor: ann(), amount: 80 },
            Investment { loan_id: id, investor: ben(), amount: 70 },
        ]
    );
}

#[test]
fn invest_guards() {
    let mut token = token_with(300, 1000);
    let (mut loans, id) = open_loan(&token, 31);
    assert_eq!(loans.create_loan(&mut token, 5, ann(), 10), Err(Error::LoanNotFound));
    assert_eq!(loans.create_loan(&mut token, id, ann(), 0), Err(Error::InvalidAmount));
    assert_eq!(loans.create_loan(&mut token, id, ann(), -1), Err(Error::InvalidAmount));
    assert_eq!(loans.create_loan(&mut token, id, ann(), 301), Err(Error::InvalidTerms));
    assert_eq!(loans.create_loan(&mut token, id, ann(), i128::MAX), Err(Error::InvalidTerms));
    assert!(loans.investments.is_empty());
}

#[test]
fn funding_cap_is_enforced_and_reached_once() {
    let mut token = token_with(300, 1000);
    let (mut loans, id) = open_loan(&token, 31);
    assert_eq!(loans.create_loan(&mut token, id, ann(), 100), Ok(LoanStatus::Open));
    assert_eq!(loans.create_loan(&mut token, id, ben(), 199), Ok(LoanStatus::Open));
    let before = loans.investments.clone();
    assert_eq!(loans.create_loan(&mut token, id, cat(), 2), Err(Error::InvalidTerms));
    assert_eq!(loans.investments, before);
    assert_eq!(loans.invested(id), 299);
    assert_eq!(loans.get_loan(id).unwrap().status, LoanStatus::Open);
    assert_eq!(token.get_balance(escrow(), 1), 0);

    assert_eq!(loans.create_loan(&mut token, id, cat(), 1), Ok(LoanStatus::Funded));
    let loan = loans.get_loan(id).unwrap();
    assert_eq!(loan.status, LoanStatus::Funded);
    assert_eq!(loan.collateral, Some(Collateral { property_id: 1, locked_amount: 31, locked: true }));
    assert_eq!(loans.invested(id), 300);
    assert_eq!(token.get_balance(escrow(), 1), 31);
    assert_eq!(token.get_balance(admin(), 1), 969);

    assert_eq!(loans.create_loan(&mut token, id, cat(), 1), Err(Error::LoanNotActive));
    assert_eq!(loans.lock_collateral(&mut token, id), Err(Error::TokensAlreadyLocked));
    assert_eq!(token.get_balance(escrow(), 1), 31);
    assert_eq!(loans.invested(id), 300);
}

#[test]
fn funding_fails_whole_when_the_collateral_cannot_be_locked() {
    let mut token = token_with(300, 1000);
    let mut loans = LoanContract::initialize(admin(), escrow());
    let id = loans.create_borrow_at(&as_admin(), &token, admin(), 1, 30, 0, T0).unwrap();
    assert_eq!(loans.create_loan(&mut token, id, ann(), 100), Ok(LoanStatus::Open));
    assert_eq!(loans.create_loan(&mut token, id, ben(), 200), Err(Error::CollateralNotSet));
    assert_eq!(loans.invested(id), 100);
    assert_eq!(loans.get_loan(id).unwrap().status, LoanStatus::Open);

    loans.set_collateral(&as_admin(), &token, admin(), id, 600).unwrap();
    token.transfer_property(&as_admin(), admin(), cat(), 1, 500).unwrap();
    assert_eq!(loans.create_loan(&mut token, id, ben(), 200), Err(Error::InsufficientBalance));
    assert_eq!(loans.invested(id), 100);
    assert_eq!(loans.get_loan(id).unwrap().status, LoanStatus::Open);
    assert_eq!(token.get_balance(admin(), 1), 500);
    assert_eq!(token.get_balance(escrow(), 1), 0);
}

#[test]
fn lock_collateral_guards() {
    let mut token = token_with(300, 1000);
    let mut loans = LoanContract::initialize(admin(), escrow());
    let id = loans.create_borrow_at(&as_admin(), &token, admin(), 1, 30, 0, T0).unwrap();
    assert_eq!(loans.lock_collateral(&mut token, 4), Err(Error::LoanNotFound));
    assert_eq!(loans.lock_collateral(&mut token, id), Err(Error::CollateralNotSet));
    loans.set_collateral(&as_admin(), &token, admin(), id, 31).unwrap();
    let receipt = loans.lock_collateral(&mut token, id).unwrap();
    assert_eq!(receipt.from, admin());
    assert_eq!(receipt.to, escrow());
    assert_eq!(receipt.amount, 31);
    assert_eq!(receipt.fee, 0);
    assert_eq!(token.get_balance(escrow(), 1), 31);
    assert_eq!(loans.lock_collateral(&mut token, id), Err(Error::TokensAlreadyLocked));
    assert_eq!(
        loans.set_collateral(&as_admin(), &token, admin(), id, 40),
        Err(Error::TokensAlreadyLocked)
    );
    assert_eq!(token.get_balance(escrow(), 1), 31);
}

#[test]
fn repay_window_ends_with_the_grace_period() {
    let maturity = T0 + 30 * DAY;
    for (now, expected) in [
        (T0, true),
        (maturity, true),
        (maturity + DAY, true),
        (maturity + DAY + 1, false),
        (u64::MAX, false),
    ] {
        let mut token = token_with(300, 1000);
        let (mut loans, id) = funded_loan(&mut token);
        assert_eq!(loans.get_loan(id).unwrap().maturity_timestamp, maturity);
        let result = loans.repay(&as_admin(), &mut token, admin(), id, now);
        if expected {
            let receipt = result.unwrap();
            assert_eq!(receipt.from, escrow());
            assert_eq!(receipt.to, admin());
            assert_eq!(receipt.amount, 31);
            assert_eq!(loans.get_loan(id).unwrap().status, LoanStatus::Repaid);
            assert_eq!(token.get_balance(admin(), 1), 1000);
            assert_eq!(token.get_balance(escrow(), 1), 0);
        } else {
            assert_eq!(result, Err(Error::InvalidTerms));
            assert_eq!(loans.get_loan(id).unwrap().status, LoanStatus::Funded);
            assert_eq!(token.get_balance(escrow(), 1), 31);
        }
    }
}

#[test]
fn repay_guards() {
    let mut token = token_with(300, 1000);
    let (mut loans, id) = open_loan(&token, 31);
    assert_eq!(
        loans.repay(&Authorizer::none(), &mut token, admin(), id, T0),
        Err(Error::Unauthorized)
    );
    assert_eq!(loans.repay(&as_admin(), &mut token, admin(), 8, T0), Err(Error::LoanNotFound));
    assert_eq!(
        loans.repay(&Authorizer::of(ann()), &mut token, ann(), id, T0),
        Err(Error::Unauthorized)
    );
    assert_eq!(loans.repay(&as_admin(), &mut token, admin(), id, T0), Err(Error::LoanNotActive));
    loans.create_loan(&mut token, id, ann(), 300).unwrap();
    assert_eq!(
        loans.repay(&Authorizer::none(), &mut token, admin(), id, T0),
        Err(Error::Unauthorized)
    );
    assert_eq!(loans.get_loan(id).unwrap().status, LoanStatus::Funded);
    assert_eq!(token.get_balance(escrow(), 1), 31);
    assert!(loans.repay(&as_admin(), &mut token, admin(), id, T0).is_ok());
    assert_eq!(loans.repay(&as_admin(), &mut token, admin(), id, T0), Err(Error::LoanNotActive));
    assert_eq!(
        loans.execute_default(&mut token, id, T0 + 40 * DAY),
        Err(Error::LoanNotActive)
    );
    assert_eq!(token.get_balance(admin(), 1), 1000);
}

#[test]
fn default_distributes_pro_rata_and_keeps_the_remainder() {
    let mut token = token_with(300, 1000);
    let (mut loans, id) = funded_loan(&mut token);
    let maturity = loans.get_loan(id).unwrap().maturity_timestamp;
    assert_eq!(loans.execute_default(&mut token, 6, maturity + 1), Err(Error::LoanNotFound));
    assert_eq!(loans.execute_default(&mut token, id, maturity), Err(Error::LoanNotMatured));
    assert_eq!(loans.get_loan(id).unwrap().status, LoanStatus::Funded);
    let payouts = loans.execute_default(&mut token, id, maturity + 1).unwrap();
    assert_eq!(
        payouts,
        vec![Payout { investor: ann(), share: 10 }, Payout { investor: ben(), share: 20 }]
    );
    assert_eq!(token.get_balance(ann(), 1), 10);
    assert_eq!(token.get_balance(ben(), 1), 20);
    assert_eq!(token.get_balance(escrow(), 1), 1);
    assert_eq!(token.get_balance(admin(), 1), 969);
    assert_eq!(loans.get_loan(id).unwrap().status, LoanStatus::Defaulted);

    assert_eq!(loans.execute_default(&mut token, id, maturity + 2), Err(Error::LoanNotActive));
    assert_eq!(
        loans.repay(&as_admin(), &mut token, admin(), id, maturity),
        Err(Error::LoanNotActive)
    );
    assert_eq!(loans.create_loan(&mut token, id, cat(), 1), Err(Error::LoanNotActive));
    assert_eq!(token.get_balance(escrow(), 1), 1);
}

#[test]
fn default_skips_shares_that_round_to_nothing() {
    let mut token = token_with(300, 1000);
    let (mut loans, id) = open_loan(&token, 2);
    loans.create_loan(&mut token, id, ann(), 100).unwrap();
    loans.create_loan(&mut token, id, ben(), 200).unwrap();
    let maturity = loans.get_loan(id).unwrap().maturity_timestamp;
    let payouts = loans.execute_default(&mut token, id, maturity + 1).unwrap();
    // 100 * 2 / 300 = 0, 200 * 2 / 300 = 1
    assert_eq!(payouts, vec![Payout { investor: ben(), share: 1 }]);
    assert_eq!(token.get_balance(ann(), 1), 0);
    assert_eq!(token.get_balance(ben(), 1), 1);
    assert_eq!(token.get_balance(escrow(), 1), 1);
}

#[test]
fn default_is_all_or_nothing_when_escrow_runs_short() {
    let mut token = token_with(300, 1000);
    token.set_protocol_fee(&as_admin(), admin(), 1000, treasury()).unwrap();
    let (mut loans, id) = funded_loan(&mut token);
    // the fee of 3 units went to the treasury when the 31 units were locked
    assert_eq!(token.get_balance(escrow(), 1), 28);
    assert_eq!(token.get_balance(treasury(), 1), 3);
    let maturity = loans.get_loan(id).unwrap().maturity_timestamp;
    let before = token.ledger.entries().clone();
    assert_eq!(
        loans.execute_default(&mut token, id, maturity + 1),
        Err(Error::InsufficientBalance)
    );
    assert_eq!(token.ledger.entries(), &before);
    assert_eq!(loans.get_loan(id).unwrap().status, LoanStatus::Funded);
    assert_eq!(
        loans.repay(&as_admin(), &mut token, admin(), id, maturity),
        Err(Error::InsufficientBalance)
    );
    assert_eq!(token.ledger.entries(), &before);
    assert_eq!(loans.get_loan(id).unwrap().status, LoanStatus::Funded);
}

#[test]
fn default_pays_shares_net_of_the_fee() {
    let mut token = token_with(300, 1000);
    let (mut loans, id) = open_loan(&token, 300);
    loans.create_loan(&mut token, id, ann(), 100).unwrap();
    loans.create_loan(&mut token, id, ben(), 200).unwrap();
    token.set_protocol_fee(&as_admin(), admin(), 250, treasury()).unwrap();
    let maturity = loans.get_loan(id).unwrap().maturity_timestamp;
    let payouts = loans.execute_default(&mut token, id, maturity + 1).unwrap();
    assert_eq!(
        payouts,
        vec![Payout { investor: ann(), share: 100 }, Payout { investor: ben(), share: 200 }]
    );
    // 100 * 250 / 10000 = 2.5 and 200 * 250 / 10000 = 5
    assert_eq!(token.get_balance(ann(), 1), 98);
    assert_eq!(token.get_balance(ben(), 1), 195);
    assert_eq!(token.get_balance(treasury(), 1), 7);
    assert_eq!(token.get_balance(escrow(), 1), 0);
}

#[test]
fn loans_do_not_share_their_investments() {
    let mut token = token_with(300, 1000);
    let mut loans = LoanContract::initialize(admin(), escrow());
    let first = loans.create_borrow_at(&as_admin(), &token, admin(), 1, 30, 0, T0).unwrap();
    let second = loans.create_borrow_at(&as_admin(), &token, admin(), 1, 60, 0, T0).unwrap();
    loans.set_collateral(&as_admin(), &token, admin(), first, 30).unwrap();
    loans.set_collateral(&as_admin(), &token, admin(), second, 60).unwrap();
    loans.create_loan(&mut token, first, ann(), 300).unwrap();
    loans.create_loan(&mut token, second, ann(), 150).unwrap();
    loans.create_loan(&mut token, second, ben(), 150).unwrap();
    assert_eq!(loans.get_investors(first), Ok(vec![ann()]));
    assert_eq!(loans.get_investors(second), Ok(vec![ann(), ben()]));
    assert_eq!(token.get_balance(escrow(), 1), 90);
    let payouts = loans.execute_default(&mut token, second, T0 + 61 * DAY).unwrap();
    assert_eq!(
        payouts,
        vec![Payout { investor: ann(), share: 30 }, Payout { investor: ben(), share: 30 }]
    );
    assert!(loans.repay(&as_admin(), &mut token, admin(), first, T0 + 31 * DAY).is_ok());
    assert_eq!(token.get_balance(escrow(), 1), 0);
    assert_eq!(token.get_balance(admin(), 1), 940);
    assert!(token.is_well_formed());
    assert!(loans.is_well_formed());
}

#[test]
fn stored_state_is_checked() {
    let mut token = token_with(300, 1000);
    let (mut loans, id) = funded_loan(&mut token);
    assert!(loans.is_well_formed());
    loans.investments[0].amount = 101;
    assert!(!loans.is_well_formed());
    loans.investments[0].amount = 100;
    loans.borrows[0].status = LoanStatus::Open;
    assert!(!loans.is_well_formed());
    loans.borrows[0].status = LoanStatus::Repaid;
    assert!(loans.is_well_formed());
    loans.borrows[0].id = 2;
    assert!(!loans.is_well_formed());
    loans.borrows[0].id = id;
    loans.investments.push(Investment { loan_id: id, investor: ann(), amount: 0 });
    assert!(!loans.is_well_formed());
    loans.investments.pop();
    loans.investments.push(Investment { loan_id: 2, investor: ann(), amount: 1 });
    assert!(!loans.is_well_formed());
}
