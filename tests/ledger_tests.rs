use stake_arb::conversion::{Amount, AmountKind, StakePool};
use stake_arb::error::PoolError;
use stake_arb::ledger::{RequestState, StakeLedger, UnbondingRequest};

const VICTIM: u64 = 1;
const ATTACKER: u64 = 2;

fn tokens(value: u64) -> Amount {
    Amount { kind: AmountKind::Tokens, value }
}

fn shares(value: u64) -> Amount {
    Amount { kind: AmountKind::Shares, value }
}

/// A pool of 10 shares backed by 20 tokens, all the victim's.
fn small_pool() -> StakeLedger {
    let mut l = StakeLedger::new();
    l.open_account(VICTIM).unwrap();
    l.open_account(ATTACKER).unwrap();
    assert_eq!(l.deposit(VICTIM, 10), Ok(10));
    l.inject_tokens(10).unwrap();
    l
}

#[test]
fn new_ledger_is_empty() {
    let l = StakeLedger::new();
    assert_eq!(l.pool(), StakePool { shares_bonded: 0, shares_unbonded: 0, vault_tokens: 0 });
    assert_eq!(l.next_sequence_id(), 0);
    assert_eq!(l.account_shares(VICTIM), None);
    assert_eq!(l.request(VICTIM, 0), None);
}

#[test]
fn account_opens_once() {
    let mut l = StakeLedger::new();
    assert_eq!(l.open_account(VICTIM), Ok(()));
    assert_eq!(l.account_shares(VICTIM), Some(0));
    assert_eq!(l.open_account(VICTIM), Err(PoolError::DuplicateAccount));
}

#[test]
fn deposit_needs_an_account() {
    let mut l = StakeLedger::new();
    assert_eq!(l.deposit(VICTIM, 5), Err(PoolError::UnknownAccount));
}

#[test]
fn deposit_mints_at_the_current_rate() {
    let mut l = small_pool();
    assert_eq!(l.pool(), StakePool { shares_bonded: 10, shares_unbonded: 0, vault_tokens: 20 });
    assert_eq!(l.deposit(ATTACKER, 5), Ok(2));
    assert_eq!(l.pool(), StakePool { shares_bonded: 12, shares_unbonded: 0, vault_tokens: 25 });
    assert_eq!(l.account_shares(ATTACKER), Some(2));
    assert_eq!(l.account_shares(VICTIM), Some(10));
}

#[test]
fn deposit_reports_overflow() {
    let mut l = small_pool();
    assert_eq!(l.deposit(ATTACKER, u64::MAX - 19), Err(PoolError::Overflow));
    assert_eq!(l.pool(), StakePool { shares_bonded: 10, shares_unbonded: 0, vault_tokens: 20 });
}

#[test]
fn inject_reports_overflow() {
    let mut l = small_pool();
    assert_eq!(l.inject_tokens(u64::MAX), Err(PoolError::Overflow));
    assert_eq!(l.inject_tokens(u64::MAX - 20), Ok(()));
    assert_eq!(l.pool().vault_tokens, u64::MAX);
}

#[test]
fn unbond_by_shares_reserves_their_worth() {
    let mut l = small_pool();
    let q = l.request_unbond(VICTIM, 0, shares(3)).unwrap();
    assert_eq!(
        q,
        UnbondingRequest {
            owner: VICTIM,
            sequence_id: 0,
            shares_burned: 3,
            token_amount_reserved: 6,
            state: RequestState::Pending,
        }
    );
    assert_eq!(l.pool(), StakePool { shares_bonded: 7, shares_unbonded: 3, vault_tokens: 20 });
    assert_eq!(l.account_shares(VICTIM), Some(7));
    assert_eq!(l.request(VICTIM, 0), Some(q));
    assert_eq!(l.next_sequence_id(), 1);
}

#[test]
fn unbond_by_tokens_burns_the_rounded_down_shares() {
    let mut l = small_pool();
    l.deposit(ATTACKER, 5).unwrap();
    let q = l.request_unbond(ATTACKER, 4, tokens(6)).unwrap();
    assert_eq!(q.shares_burned, 2);
    assert_eq!(q.token_amount_reserved, 6);
    assert_eq!(l.account_shares(ATTACKER), Some(0));
    assert_eq!(l.next_sequence_id(), 5);
}

#[test]
fn unbond_needs_enough_bonded_shares() {
    let mut l = small_pool();
    assert_eq!(l.request_unbond(ATTACKER, 0, shares(1)), Err(PoolError::InsufficientShares));
    assert_eq!(l.request_unbond(VICTIM, 0, shares(11)), Err(PoolError::InsufficientShares));
    assert_eq!(l.request_unbond(9, 0, shares(1)), Err(PoolError::UnknownAccount));
    assert_eq!(l.request(VICTIM, 0), None);
}

#[test]
fn second_request_under_one_key_is_refused() {
    let mut l = small_pool();
    assert!(l.request_unbond(VICTIM, 3, shares(1)).is_ok());
    assert_eq!(l.request_unbond(VICTIM, 3, shares(1)), Err(PoolError::DuplicateRequestKey));
    assert_eq!(l.pool(), StakePool { shares_bonded: 9, shares_unbonded: 1, vault_tokens: 20 });
    // Another owner may use the same sequence id.
    l.deposit(ATTACKER, 10).unwrap();
    assert!(l.request_unbond(ATTACKER, 3, shares(1)).is_ok());
}

#[test]
fn consumed_key_is_still_refused() {
    let mut l = small_pool();
    l.request_unbond(VICTIM, 0, shares(2)).unwrap();
    l.withdraw(VICTIM, 0).unwrap();
    assert_eq!(l.request_unbond(VICTIM, 0, shares(1)), Err(PoolError::DuplicateRequestKey));
    l.request_unbond(VICTIM, 1, shares(2)).unwrap();
    l.cancel_unbond(VICTIM, 1).unwrap();
    assert_eq!(l.request_unbond(VICTIM, 1, shares(1)), Err(PoolError::DuplicateRequestKey));
}

#[test]
fn cancel_restores_the_shares() {
    let mut l = small_pool();
    l.request_unbond(VICTIM, 0, shares(4)).unwrap();
    assert_eq!(l.cancel_unbond(VICTIM, 0), Ok(()));
    assert_eq!(l.pool(), StakePool { shares_bonded: 10, shares_unbonded: 0, vault_tokens: 20 });
    assert_eq!(l.account_shares(VICTIM), Some(10));
    assert_eq!(l.request(VICTIM, 0).unwrap().state, RequestState::Cancelled);
    assert_eq!(l.cancel_unbond(VICTIM, 0), Err(PoolError::InvalidState));
    assert_eq!(l.withdraw(VICTIM, 0), Err(PoolError::InvalidState));
}

#[test]
fn withdraw_releases_the_reservation() {
    let mut l = small_pool();
    l.request_unbond(VICTIM, 0, shares(4)).unwrap();
    assert_eq!(l.withdraw(VICTIM, 0), Ok(8));
    assert_eq!(l.pool(), StakePool { shares_bonded: 6, shares_unbonded: 0, vault_tokens: 12 });
    assert_eq!(l.request(VICTIM, 0).unwrap().state, RequestState::Withdrawn);
}

#[test]
fn withdrawing_twice_is_invalid() {
    let mut l = small_pool();
    l.request_unbond(VICTIM, 0, shares(4)).unwrap();
    assert_eq!(l.withdraw(VICTIM, 0), Ok(8));
    assert_eq!(l.withdraw(VICTIM, 0), Err(PoolError::InvalidState));
    assert_eq!(l.cancel_unbond(VICTIM, 0), Err(PoolError::InvalidState));
    assert_eq!(l.pool(), StakePool { shares_bonded: 6, shares_unbonded: 0, vault_tokens: 12 });
}

#[test]
fn unknown_request_is_reported() {
    let mut l = small_pool();
    assert_eq!(l.withdraw(VICTIM, 0), Err(PoolError::UnknownRequest));
    assert_eq!(l.cancel_unbond(VICTIM, 0), Err(PoolError::UnknownRequest));
}

#[test]
fn vault_cannot_go_below_zero() {
    let mut l = StakeLedger::new();
    l.open_account(VICTIM).unwrap();
    l.open_account(ATTACKER).unwrap();
    l.deposit(VICTIM, 10).unwrap();
    l.inject_tokens(1000).unwrap();
    // Fifty tokens buy no share, yet a hundred tokens cost none either.
    assert_eq!(l.deposit(ATTACKER, 50), Ok(0));
    let q = l.request_unbond(ATTACKER, 0, tokens(100)).unwrap();
    assert_eq!(q.shares_burned, 0);
    let v = l.request_unbond(VICTIM, 0, shares(10)).unwrap();
    assert_eq!(v.token_amount_reserved, 1060);
    assert_eq!(l.withdraw(VICTIM, 0), Ok(1060));
    assert_eq!(l.pool().vault_tokens, 0);
    assert_eq!(l.withdraw(ATTACKER, 0), Err(PoolError::InsufficientVaultBalance));
    assert_eq!(l.pool().vault_tokens, 0);
    assert_eq!(l.request(ATTACKER, 0).unwrap().state, RequestState::Pending);
}

#[test]
fn share_amount_beyond_the_holding_is_insufficient_not_overflow() {
    let mut l = StakeLedger::new();
    l.open_account(VICTIM).unwrap();
    l.open_account(ATTACKER).unwrap();
    l.deposit(VICTIM, 1).unwrap();
    l.inject_tokens(u64::MAX - 1).unwrap();
    assert_eq!(l.pool(), StakePool { shares_bonded: 1, shares_unbonded: 0, vault_tokens: u64::MAX });
    assert_eq!(l.request_unbond(ATTACKER, 0, shares(2)), Err(PoolError::InsufficientShares));
    assert_eq!(l.request_unbond(VICTIM, 0, shares(2)), Err(PoolError::InsufficientShares));
}
