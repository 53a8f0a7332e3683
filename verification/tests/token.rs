use substrate_dex::system::{ChainContext, Origin};
use substrate_dex::token::{Event, Module as TokenModule};

fn ctx() -> ChainContext {
    ChainContext { random_seed: (0, 0), block_number: 0 }
}

#[test]
fn token_related_test_case() {
    let ok: Result<(), &'static str> = Ok(());
    assert!(ok.is_ok());
    assert_eq!(1, 1);
    assert!(true);
    assert!(1 == 1);

    let alice = 10;
    let bob = 20;
    let charlie = 30;
    let ctx = ctx();
    let mut tokens = TokenModule::new();

    assert_eq!(tokens.issue(Origin::signed(alice), b"6688".to_vec(), 21000000, &ctx), Ok(()));
    assert_eq!(tokens.owned_token_index(alice), 1);

    let token_hash = tokens.owned_token((alice, 0));
    assert!(token_hash.is_some());
    let token_hash = token_hash.unwrap();
    let token = tokens.token(token_hash);
    assert!(token.is_some());
    let token = token.unwrap();

    assert_eq!(tokens.balance_of((alice, token.hash)), 21000000);
    assert_eq!(tokens.free_balance_of((alice, token.hash)), 21000000);
    assert_eq!(tokens.freezed_balance_of((alice, token.hash)), 0);

    assert_eq!(tokens.transfer(Origin::signed(alice), bob, token.hash, 100), Ok(()));

    assert_eq!(tokens.balance_of((alice, token.hash)), 20999900);
    assert_eq!(tokens.free_balance_of((alice, token.hash)), 20999900);
    assert_eq!(tokens.freezed_balance_of((alice, token.hash)), 0);

    assert_eq!(tokens.balance_of((bob, token.hash)), 100);
    assert_eq!(tokens.free_balance_of((bob, token.hash)), 100);
    assert_eq!(tokens.freezed_balance_of((bob, token.hash)), 0);

    assert_eq!(tokens.transfer(Origin::signed(alice), bob, (0, 2), 100), Err("no matching token found"));
    assert_eq!(tokens.transfer(Origin::signed(charlie), alice, token.hash, 100), Err("sender does not have the token"));
    assert_eq!(tokens.transfer(Origin::signed(bob), alice, token.hash, 200), Err("sender does not have enough balance"));
}

#[test]
fn token_freeze_unfreeze_round_trip() {
    let alice = 10;
    let ctx = ctx();
    let mut tokens = TokenModule::new();
    assert_eq!(tokens.issue(Origin::signed(alice), b"77".to_vec(), 1000, &ctx), Ok(()));
    let hash = tokens.owned_token((alice, 0)).unwrap();

    assert_eq!(tokens.freeze(Origin::signed(alice), hash, 300), Ok(()));
    assert_eq!(tokens.balance_of((alice, hash)), 1000);
    assert_eq!(tokens.free_balance_of((alice, hash)), 700);
    assert_eq!(tokens.freezed_balance_of((alice, hash)), 300);

    assert_eq!(tokens.freeze(Origin::signed(alice), hash, 701), Err("can not freeze more than available tokens"));
    assert_eq!(tokens.unfreeze(Origin::signed(alice), hash, 301), Err("can not unfreeze more than available tokens"));
    assert_eq!(tokens.ensure_free_balance(alice, hash, 701), Err("does not have enough free balance to freeze"));
    assert_eq!(tokens.ensure_free_balance(alice, hash, 700), Ok(()));

    assert_eq!(tokens.unfreeze(Origin::signed(alice), hash, 300), Ok(()));
    assert_eq!(tokens.balance_of((alice, hash)), 1000);
    assert_eq!(tokens.free_balance_of((alice, hash)), 1000);
    assert_eq!(tokens.freezed_balance_of((alice, hash)), 0);
    assert_eq!(tokens.events.len(), 3);
    assert!(matches!(tokens.events[1], Event::Freezed(10, _, 300)));
    assert!(matches!(tokens.events[2], Event::UnFreezed(10, _, 300)));
}

#[test]
fn token_errors_and_frozen_transfer() {
    let alice = 10;
    let bob = 20;
    let ctx = ctx();
    let mut tokens = TokenModule::new();
    assert_eq!(tokens.issue(Origin::Unsigned, b"1".to_vec(), 10, &ctx), Err("bad origin: expected to be a signed origin"));
    assert_eq!(tokens.issue(Origin::signed(alice), b"1".to_vec(), 10, &ctx), Ok(()));
    let hash = tokens.owned_token((alice, 0)).unwrap();
    assert_eq!(tokens.owner(hash), Some(alice));
    assert_eq!(tokens.freeze(Origin::signed(alice), (0, 9), 1), Err("no matching token found"));
    assert_eq!(tokens.freeze(Origin::signed(bob), hash, 1), Err("sender does not have the token"));
    assert_eq!(tokens.freeze(Origin::signed(alice), hash, 6), Ok(()));
    // the frozen part cannot be sent
    assert_eq!(tokens.transfer(Origin::signed(alice), bob, hash, 5), Err("sender does not have enough free balance"));
    assert_eq!(tokens.transfer(Origin::signed(alice), bob, hash, 4), Ok(()));
    assert_eq!(tokens.balance_of((alice, hash)) + tokens.balance_of((bob, hash)), 10);
    assert_eq!(tokens.free_balance_of((alice, hash)), 0);
}

#[test]
fn token_issue_identifiers_differ() {
    let alice = 10;
    let ctx = ctx();
    let mut tokens = TokenModule::new();
    assert_eq!(tokens.issue(Origin::signed(alice), b"a".to_vec(), 1, &ctx), Ok(()));
    assert_eq!(tokens.issue(Origin::signed(alice), b"a".to_vec(), 1, &ctx), Ok(()));
    let h0 = tokens.owned_token((alice, 0)).unwrap();
    let h1 = tokens.owned_token((alice, 1)).unwrap();
    assert_ne!(h0, h1);
    assert_ne!(h0, (0, 0));
    assert_eq!(tokens.owned_token_index(alice), 2);
    assert_eq!(tokens.nonce, 2);
}

#[test]
fn token_transfer_to_oneself_adds_the_amount() {
    let alice = 10;
    let ctx = ctx();
    let mut tokens = TokenModule::new();
    assert_eq!(tokens.issue(Origin::signed(alice), b"1".to_vec(), 100, &ctx), Ok(()));
    let hash = tokens.owned_token((alice, 0)).unwrap();
    // both writes read the balance from before: the second one wins
    assert_eq!(tokens.transfer(Origin::signed(alice), alice, hash, 30), Ok(()));
    assert_eq!(tokens.balance_of((alice, hash)), 130);
    assert_eq!(tokens.free_balance_of((alice, hash)), 130);
}

#[test]
fn token_transfer_overflow_is_refused() {
    let alice = 10;
    let bob = 20;
    let ctx = ctx();
    let mut tokens = TokenModule::new();
    assert_eq!(tokens.issue(Origin::signed(alice), b"1".to_vec(), u128::MAX, &ctx), Ok(()));
    let hash = tokens.owned_token((alice, 0)).unwrap();
    assert_eq!(tokens.transfer(Origin::signed(alice), bob, hash, 1), Ok(()));
    assert_eq!(tokens.transfer(Origin::signed(alice), alice, hash, 2), Err("to amount overflow"));
    assert_eq!(tokens.balance_of((alice, hash)), u128::MAX - 1);
    assert_eq!(tokens.freeze(Origin::signed(alice), hash, u128::MAX - 1), Ok(()));
    assert_eq!(tokens.transfer(Origin::signed(bob), alice, hash, 1), Ok(()));
    assert_eq!(tokens.balance_of((alice, hash)), u128::MAX);
    assert_eq!(tokens.freezed_balance_of((alice, hash)), u128::MAX - 1);
}
