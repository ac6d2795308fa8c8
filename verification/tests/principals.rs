use rwa_lending::{Address, AddressKind, Authorizer, BalanceEntry, Error, Ledger};

#[test]
fn addresses_are_told_apart_by_kind_and_identifier() {
    let account = Address::account(1, 2);
    let contract = Address::contract(1, 2);
    assert_eq!(account, Address { kind: AddressKind::Account, high: 1, low: 2 });
    assert_eq!(contract, Address { kind: AddressKind::Contract, high: 1, low: 2 });
    assert_ne!(account, contract);
    assert_ne!(account, Address::account(2, 1));
    assert_eq!(account, Address::account(1, 2));
}

#[test]
fn authorizer_vouches_for_whom_it_was_told() {
    let ann = Address::account(0, 1);
    let ben = Address::account(0, 2);
    let cat = Address::contract(0, 1);
    let none = Authorizer::none();
    assert!(!none.authorizes(ann));
    let one = Authorizer::of(ann);
    assert!(one.authorizes(ann));
    assert!(!one.authorizes(ben));
    assert!(!one.authorizes(cat));
    let mut two = Authorizer::of(ann);
    two.approve(cat);
    two.approve(ann);
    assert!(two.authorizes(ann));
    assert!(two.authorizes(cat));
    assert!(!two.authorizes(ben));
}

#[test]
fn ledger_moves_units_and_drops_empty_holdings() {
    let ann = Address::account(0, 1);
    let ben = Address::account(0, 2);
    let fees = Address::account(0, 3);
    let mut ledger = Ledger::new();
    assert!(ledger.entries().is_empty());
    assert_eq!(ledger.balance_of(ann, 1), 0);
    ledger.mint(ann, 1, 1000);
    ledger.mint(ann, 2, 50);
    ledger.mint(ben, 1, 0);
    assert_eq!(ledger.balance_of(ann, 1), 1000);
    assert_eq!(ledger.balance_of(ben, 1), 0);
    assert_eq!(ledger.entries().len(), 2);

    assert_eq!(ledger.transfer(ann, ben, 1, 1000, 250, fees), Ok(25));
    assert_eq!(
        ledger.entries(),
        &vec![
            BalanceEntry { holder: ann, property_id: 2, units: 50 },
            BalanceEntry { holder: fees, property_id: 1, units: 25 },
            BalanceEntry { holder: ben, property_id: 1, units: 975 },
        ]
    );
    assert_eq!(ledger.supply(1), Some(1000));
    assert_eq!(ledger.supply(2), Some(50));
    assert_eq!(ledger.supply(3), Some(0));

    // the sender may be the receiver or the fee wallet
    assert_eq!(ledger.transfer(ben, ben, 1, 400, 250, fees), Ok(10));
    assert_eq!(ledger.balance_of(ben, 1), 965);
    assert_eq!(ledger.balance_of(fees, 1), 35);
    assert_eq!(ledger.transfer(fees, ann, 1, 35, 10000, fees), Ok(35));
    assert_eq!(ledger.balance_of(fees, 1), 35);
    assert_eq!(ledger.balance_of(ann, 1), 0);
    assert_eq!(ledger.supply(1), Some(1000));

    assert_eq!(ledger.transfer(ann, ben, 1, 1, 0, fees), Err(Error::InsufficientBalance));
    assert_eq!(ledger.transfer(ben, ann, 1, 0, 0, fees), Err(Error::InvalidAmount));
    assert_eq!(ledger.transfer(ben, ann, 1, 966, 0, fees), Err(Error::InsufficientBalance));
    assert_eq!(ledger.balance_of(ben, 1), 965);
}

#[test]
fn ledger_copy_is_independent() {
    let ann = Address::account(0, 1);
    let ben = Address::account(0, 2);
    let mut ledger = Ledger::new();
    ledger.mint(ann, 1, 10);
    let copy = ledger.duplicate();
    ledger.transfer(ann, ben, 1, 4, 0, ann).unwrap();
    assert_eq!(copy.balance_of(ann, 1), 10);
    assert_eq!(copy.balance_of(ben, 1), 0);
    assert_eq!(ledger.balance_of(ann, 1), 6);
    assert!(copy.is_well_formed());
    assert!(Ledger::entries_valid(copy.entries()));
}

#[test]
fn ledger_supply_reports_what_does_not_fit() {
    let ann = Address::account(0, 1);
    let ben = Address::account(0, 2);
    let ledger = Ledger::from_entries(vec![
        BalanceEntry { holder: ann, property_id: 1, units: i128::MAX },
        BalanceEntry { holder: ben, property_id: 1, units: 1 },
        BalanceEntry { holder: ben, property_id: 2, units: i128::MAX },
    ])
    .unwrap();
    assert_eq!(ledger.supply(1), None);
    assert_eq!(ledger.supply(2), Some(i128::MAX));
}
