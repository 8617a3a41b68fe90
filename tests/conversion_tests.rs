use stake_arb::conversion::{
    convert_amount, shares_for_tokens, tokens_for_shares, Amount, AmountKind, FullAmount, StakePool,
};
use stake_arb::error::PoolError;

fn pool(shares_bonded: u64, shares_unbonded: u64, vault_tokens: u64) -> StakePool {
    StakePool { shares_bonded, shares_unbonded, vault_tokens }
}

#[test]
fn first_deposit_mints_one_share_per_token() {
    assert_eq!(shares_for_tokens(&pool(0, 0, 0), 7), Ok(7));
    assert_eq!(shares_for_tokens(&pool(0, 0, 500), 7), Ok(7));
}

#[test]
fn shares_for_tokens_rounds_down() {
    assert_eq!(shares_for_tokens(&pool(10, 0, 20), 5), Ok(2));
    assert_eq!(shares_for_tokens(&pool(10, 0, 1000), 50), Ok(0));
    assert_eq!(shares_for_tokens(&pool(12, 0, 25), 6), Ok(2));
    assert_eq!(shares_for_tokens(&pool(12, 0, 25), 7), Ok(3));
}

#[test]
fn unbonded_shares_count_in_the_supply() {
    assert_eq!(shares_for_tokens(&pool(6, 4, 20), 5), Ok(2));
    assert_eq!(tokens_for_shares(&pool(6, 4, 25), 3), Ok(7));
}

#[test]
fn shares_for_tokens_uses_a_wide_product() {
    assert_eq!(shares_for_tokens(&pool(u64::MAX, 0, u64::MAX), u64::MAX), Ok(u64::MAX));
    assert_eq!(shares_for_tokens(&pool(1 << 40, 0, 1 << 41), 1 << 60), Ok(1 << 59));
}

#[test]
fn shares_for_tokens_fails_on_an_empty_vault() {
    assert_eq!(shares_for_tokens(&pool(10, 0, 0), 5), Err(PoolError::EmptyVault));
}

#[test]
fn shares_for_tokens_reports_overflow() {
    assert_eq!(shares_for_tokens(&pool(u64::MAX, 0, 1), 2), Err(PoolError::Overflow));
}

#[test]
fn tokens_for_shares_rounds_down() {
    assert_eq!(tokens_for_shares(&pool(10, 0, 25), 3), Ok(7));
    assert_eq!(tokens_for_shares(&pool(12, 0, 25), 2), Ok(4));
}

#[test]
fn tokens_for_shares_fails_without_shares() {
    assert_eq!(tokens_for_shares(&pool(0, 0, 5), 1), Err(PoolError::EmptyPool));
}

#[test]
fn tokens_for_shares_reports_overflow() {
    assert_eq!(tokens_for_shares(&pool(1, 0, u64::MAX), 2), Err(PoolError::Overflow));
}

#[test]
fn convert_amount_keeps_the_given_side() {
    let p = pool(12, 0, 25);
    assert_eq!(
        convert_amount(&p, Amount { kind: AmountKind::Tokens, value: 7 }),
        Ok(FullAmount { shares: 3, tokens: 7 })
    );
    assert_eq!(
        convert_amount(&p, Amount { kind: AmountKind::Shares, value: 2 }),
        Ok(FullAmount { shares: 2, tokens: 4 })
    );
    assert_eq!(
        convert_amount(&pool(0, 0, 0), Amount { kind: AmountKind::Shares, value: 2 }),
        Err(PoolError::EmptyPool)
    );
}

#[test]
fn shares_for_tokens_never_falls() {
    for p in [pool(12, 0, 25), pool(10, 0, 1050), pool(3, 4, 1000), pool(0, 0, 9)] {
        let mut last = 0u64;
        for t in 0..3000u64 {
            let s = shares_for_tokens(&p, t).unwrap();
            assert!(last <= s);
            last = s;
        }
    }
}

#[test]
fn tokens_for_shares_never_falls() {
    let p = pool(7, 3, 1234);
    let mut last = 0u64;
    for s in 0..500u64 {
        let t = tokens_for_shares(&p, s).unwrap();
        assert!(last <= t);
        last = t;
    }
}
