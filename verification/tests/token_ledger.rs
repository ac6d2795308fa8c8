use rwa_lending::{
    Address, Authorizer, BalanceEntry, Error, Ledger, RealEstateTokenContract,
};

fn admin() -> Address {
    Address::account(0, 1)
}

fn alice() -> Address {
    Address::account(0, 2)
}

fn bob() -> Address {
    Address::account(0, 3)
}

fn treasury() -> Address {
    Address::contract(7, 7)
}

fn new_token() -> RealEstateTokenContract {
    RealEstateTokenContract::initialize(admin(), "Tower".to_string(), "TWR".to_string(), 0)
}

fn register(token: &mut RealEstateTokenContract, wanted: i128, have: i128, supply: i128) -> u128 {
    token
        .register_property(
            &Authorizer::of(admin()),
            admin(),
            "Tower One".to_string(),
            wanted,
            have,
            supply,
            "Acme Build".to_string(),
            "ipfs://tower".to_string(),
            "TW1".to_string(),
        )
        .unwrap()
}

#[test]
fn initialize_starts_empty_with_no_fee() {
    let token = new_token();
    assert_eq!(token.admin, admin());
    assert_eq!(token.protocol_fee_bps, 0);
    assert_eq!(token.fee_wallet, admin());
    assert!(token.properties.is_empty());
    assert_eq!(token.get_balance(admin(), 1), 0);
    assert_eq!(token.get_metadata(), ("Tower".to_string(), "TWR".to_string(), 0));
}

#[test]
fn register_assigns_ids_from_one_and_credits_builder() {
    let mut token = new_token();
    let first = register(&mut token, 5000, 1000, 1000);
    let second = register(&mut token, 900, 0, 30);
    assert_eq!(first, 1);
    assert_eq!(second, 2);
    assert_eq!(token.get_balance(admin(), 1), 1000);
    assert_eq!(token.get_balance(admin(), 2), 30);
    assert_eq!(token.get_total_supply(1), Ok(1000));
    assert_eq!(token.get_total_supply(2), Ok(30));
    let property = token.get_property(2).unwrap();
    assert_eq!(property.id, 2);
    assert_eq!(property.builder, admin());
    assert_eq!(property.name, "Tower One");
    assert_eq!(property.wanted, 900);
    assert_eq!(property.have, 0);
    assert_eq!(property.total_supply, 30);
    assert_eq!(property.builder_name, "Acme Build");
    assert_eq!(property.external_ref, "ipfs://tower");
    assert_eq!(property.ticker, "TW1");
}

#[test]
fn register_rejects_unauthorized_caller_without_change() {
    let mut token = new_token();
    let by_stranger = token.register_property(
        &Authorizer::of(alice()),
        alice(),
        "x".to_string(),
        10,
        0,
        10,
        "y".to_string(),
        "z".to_string(),
        "w".to_string(),
    );
    assert_eq!(by_stranger, Err(Error::Unauthorized));
    let without_auth = token.register_property(
        &Authorizer::none(),
        admin(),
        "x".to_string(),
        10,
        0,
        10,
        "y".to_string(),
        "z".to_string(),
        "w".to_string(),
    );
    assert_eq!(without_auth, Err(Error::Unauthorized));
    assert!(token.properties.is_empty());
    assert!(token.ledger.entries().is_empty());
}

#[test]
fn register_rejects_unusable_figures() {
    let mut token = new_token();
    let auth = Authorizer::of(admin());
    let no_supply = token.register_property(
        &auth,
        admin(),
        "x".to_string(),
        10,
        0,
        0,
        "y".to_string(),
        "z".to_string(),
        "w".to_string(),
    );
    assert_eq!(no_supply, Err(Error::InvalidProperty));
    let nothing_wanted = token.register_property(
        &auth,
        admin(),
        "x".to_string(),
        0,
        0,
        10,
        "y".to_string(),
        "z".to_string(),
        "w".to_string(),
    );
    assert_eq!(nothing_wanted, Err(Error::InvalidProperty));
    let negative = token.register_property(
        &auth,
        admin(),
        "x".to_string(),
        -5,
        0,
        -1,
        "y".to_string(),
        "z".to_string(),
        "w".to_string(),
    );
    assert_eq!(negative, Err(Error::InvalidProperty));
    assert!(token.properties.is_empty());
}

#[test]
fn get_property_of_unknown_id_fails() {
    let mut token = new_token();
    register(&mut token, 100, 0, 10);
    assert_eq!(token.get_property(0).err(), Some(Error::InvalidProperty));
    assert_eq!(token.get_property(2).err(), Some(Error::InvalidProperty));
    assert_eq!(token.get_total_supply(9), Err(Error::InvalidProperty));
}

#[test]
fn price_percentual_and_balance_round_toward_zero() {
    let mut token = new_token();
    register(&mut token, 5000, 12000, 1500);
    let property = token.get_property(1).unwrap().clone();
    assert_eq!(RealEstateTokenContract::price(&property), 3);
    assert_eq!(RealEstateTokenContract::percentual(&property), 2);
    assert_eq!(RealEstateTokenContract::balance(100, &property), 33);
    assert_eq!(RealEstateTokenContract::balance(-100, &property), -33);
    let mut owing = property.clone();
    owing.have = -7;
    owing.wanted = 2;
    assert_eq!(RealEstateTokenContract::percentual(&owing), -3);
}

#[test]
fn fee_arithmetic_matches_basis_points() {
    let mut token = new_token();
    let id = register(&mut token, 5000, 0, 5000);
    token
        .set_protocol_fee(&Authorizer::of(admin()), admin(), 250, treasury())
        .unwrap();
    let receipt = token
        .transfer_property(&Authorizer::of(admin()), admin(), alice(), id, 1000)
        .unwrap();
    assert_eq!(receipt.amount, 1000);
    assert_eq!(receipt.fee, 25);
    assert_eq!(receipt.from, admin());
    assert_eq!(receipt.to, alice());
    assert_eq!(receipt.property_id, id);
    assert_eq!(token.get_balance(admin(), id), 4000);
    assert_eq!(token.get_balance(alice(), id), 975);
    assert_eq!(token.get_balance(treasury(), id), 25);
}

#[test]
fn transfer_keeps_the_supply() {
    let mut token = new_token();
    let id = register(&mut token, 5000, 0, 777);
    token
        .set_protocol_fee(&Authorizer::of(admin()), admin(), 999, treasury())
        .unwrap();
    token
        .transfer_property(&Authorizer::of(admin()), admin(), alice(), id, 333)
        .unwrap();
    token
        .transfer_property(&Authorizer::of(alice()), alice(), bob(), id, 17)
        .unwrap();
    token
        .transfer_property(&Authorizer::of(bob()), bob(), bob(), id, 5)
        .unwrap();
    let held: i128 = token.ledger.entries().iter().filter(|e| e.property_id == id).map(|e| e.units).sum();
    assert_eq!(held, 777);
    assert!(token.ledger.entries().iter().all(|e| e.units > 0));
}

#[test]
fn failed_transfer_changes_no_balance() {
    let mut token = new_token();
    let id = register(&mut token, 5000, 0, 100);
    token
        .set_protocol_fee(&Authorizer::of(admin()), admin(), 100, treasury())
        .unwrap();
    token
        .transfer_property(&Authorizer::of(admin()), admin(), alice(), id, 40)
        .unwrap();
    let before = token.ledger.entries().clone();
    let result = token.transfer_property(&Authorizer::of(alice()), alice(), bob(), id, 41);
    assert_eq!(result, Err(Error::InsufficientBalance));
    assert_eq!(token.ledger.entries(), &before);
}

#[test]
fn transfer_guards_come_in_order() {
    let mut token = new_token();
    let id = register(&mut token, 5000, 0, 100);
    let none = Authorizer::none();
    let auth = Authorizer::of(admin());
    assert_eq!(token.transfer_property(&none, admin(), alice(), 9, 0), Err(Error::Unauthorized));
    assert_eq!(token.transfer_property(&auth, admin(), alice(), 9, 0), Err(Error::InvalidAmount));
    assert_eq!(token.transfer_property(&auth, admin(), alice(), 9, -3), Err(Error::InvalidAmount));
    assert_eq!(token.transfer_property(&auth, admin(), alice(), 9, 1), Err(Error::InvalidProperty));
    assert_eq!(
        token.transfer_property(&auth, admin(), alice(), id, 101),
        Err(Error::InsufficientBalance)
    );
    assert_eq!(token.get_balance(admin(), id), 100);
}

#[test]
fn transfer_with_fee_skips_the_registry_check() {
    let mut token = new_token();
    let id = register(&mut token, 5000, 0, 100);
    let auth = Authorizer::of(admin());
    assert_eq!(token.transfer_with_fee(&Authorizer::none(), admin(), alice(), id, 1), Err(Error::Unauthorized));
    assert_eq!(token.transfer_with_fee(&auth, admin(), alice(), id, 0), Err(Error::InvalidAmount));
    assert_eq!(
        token.transfer_with_fee(&auth, admin(), alice(), 9, 1),
        Err(Error::InsufficientBalance)
    );
    let receipt = token.transfer_with_fee(&auth, admin(), alice(), id, 100).unwrap();
    assert_eq!(receipt.fee, 0);
    assert_eq!(token.get_balance(admin(), id), 0);
    assert_eq!(token.get_balance(alice(), id), 100);
    assert_eq!(token.ledger.entries().len(), 1);
}

#[test]
fn set_protocol_fee_is_for_the_admin_and_capped() {
    let mut token = new_token();
    assert_eq!(
        token.set_protocol_fee(&Authorizer::of(alice()), alice(), 10, alice()),
        Err(Error::Unauthorized)
    );
    assert_eq!(
        token.set_protocol_fee(&Authorizer::none(), admin(), 10, alice()),
        Err(Error::Unauthorized)
    );
    assert_eq!(
        token.set_protocol_fee(&Authorizer::of(admin()), admin(), 1001, alice()),
        Err(Error::InvalidAmount)
    );
    assert_eq!(token.protocol_fee_bps, 0);
    assert_eq!(token.fee_wallet, admin());
    assert_eq!(token.set_protocol_fee(&Authorizer::of(admin()), admin(), 1000, alice()), Ok(()));
    assert_eq!(token.protocol_fee_bps, 1000);
    assert_eq!(token.fee_wallet, alice());
}

#[test]
fn verify_builder_accepts_only_the_authorized_admin() {
    let token = new_token();
    assert_eq!(token.verify_builder(&Authorizer::of(admin()), admin()), Ok(()));
    assert_eq!(token.verify_builder(&Authorizer::of(alice()), alice()), Err(Error::Unauthorized));
    assert_eq!(token.verify_builder(&Authorizer::of(alice()), admin()), Err(Error::Unauthorized));
}

#[test]
fn stored_token_state_is_checked() {
    let mut token = new_token();
    let id = register(&mut token, 5000, 0, 100);
    token.transfer_property(&Authorizer::of(admin()), admin(), alice(), id, 40).unwrap();
    assert!(token.is_well_formed());

    let entries = token.ledger.entries().clone();
    assert_eq!(
        entries,
        vec![
            BalanceEntry { holder: admin(), property_id: id, units: 60 },
            BalanceEntry { holder: alice(), property_id: id, units: 40 },
        ]
    );
    let mut short = entries.clone();
    short[1].units = 39;
    token.ledger = Ledger::from_entries(short).unwrap();
    assert!(!token.is_well_formed());

    let mut stray = entries.clone();
    stray.push(BalanceEntry { holder: bob(), property_id: 2, units: 1 });
    token.ledger = Ledger::from_entries(stray).unwrap();
    assert!(!token.is_well_formed());

    let mut doubled = entries.clone();
    doubled.push(BalanceEntry { holder: alice(), property_id: id, units: 1 });
    assert!(Ledger::from_entries(doubled).is_none());
    let mut empty_entry = entries.clone();
    empty_entry[0].units = 0;
    assert!(Ledger::from_entries(empty_entry).is_none());

    token.ledger = Ledger::from_entries(entries).unwrap();
    assert!(token.is_well_formed());
    assert_eq!(token.ledger.supply(id), Some(100));
    assert_eq!(token.ledger.supply(2), Some(0));
    token.protocol_fee_bps = 1001;
    assert!(!token.is_well_formed());
}
