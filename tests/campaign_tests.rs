use stake_arb::campaign::{run_campaign, run_round, RoundRecord};
use stake_arb::conversion::{Amount, AmountKind, StakePool};
use stake_arb::error::PoolError;
use stake_arb::ledger::{RequestState, StakeLedger, UnbondingRequest};
use stake_arb::search::{AmountRange, Candidate};

const VICTIM: u64 = 1;
const ATTACKER: u64 = 2;

fn range(start: u64, end: u64) -> AmountRange {
    AmountRange { start, end }
}

/// The victim's stake, then an injection of as many tokens: a pool of
/// `stake` shares backed by twice as many tokens.
fn imbalanced(stake: u64, injected: u64) -> StakeLedger {
    let mut l = StakeLedger::new();
    l.open_account(VICTIM).unwrap();
    l.open_account(ATTACKER).unwrap();
    l.deposit(VICTIM, stake).unwrap();
    l.inject_tokens(injected).unwrap();
    l
}

#[test]
fn round_commits_the_best_pair() {
    let mut l = imbalanced(100, 100);
    let r = run_round(&mut l, ATTACKER, range(1, 1000), range(0, 200));
    assert_eq!(
        r,
        Ok(Some(RoundRecord {
            candidate: Candidate { deposit_amt: 1, transfer_amt: 0, max_redeemable: 2, profit: 1 },
            request: UnbondingRequest {
                owner: ATTACKER,
                sequence_id: 0,
                shares_burned: 0,
                token_amount_reserved: 2,
                state: RequestState::Pending,
            },
        }))
    );
    assert_eq!(l.pool(), StakePool { shares_bonded: 100, shares_unbonded: 0, vault_tokens: 201 });
    assert_eq!(l.account_shares(ATTACKER), Some(0));
    assert_eq!(l.next_sequence_id(), 1);
    assert_eq!(l.withdraw(ATTACKER, 0), Ok(2));
    assert_eq!(l.pool().vault_tokens, 199);
}

#[test]
fn round_on_a_fair_pool_changes_nothing() {
    let mut l = imbalanced(10, 0);
    assert_eq!(run_round(&mut l, ATTACKER, range(1, 50), range(0, 10)), Ok(None));
    assert_eq!(l.pool(), StakePool { shares_bonded: 10, shares_unbonded: 0, vault_tokens: 10 });
    assert_eq!(l.next_sequence_id(), 0);
}

#[test]
fn round_needs_the_attackers_account() {
    let mut l = imbalanced(100, 100);
    assert_eq!(run_round(&mut l, 7, range(1, 10), range(0, 2)), Err(PoolError::UnknownAccount));
    assert_eq!(l.pool().vault_tokens, 200);
}

#[test]
fn round_needs_a_fresh_sequence_id() {
    let mut l = imbalanced(100, 100);
    let one = Amount { kind: AmountKind::Shares, value: 1 };
    l.request_unbond(VICTIM, u32::MAX, one).unwrap();
    assert_eq!(l.next_sequence_id(), 1 << 32);
    assert_eq!(run_round(&mut l, ATTACKER, range(1, 10), range(0, 2)), Err(PoolError::KeysExhausted));
}

#[test]
fn campaign_compounds_and_drains() {
    let mut l = imbalanced(100, 100);
    let report = run_campaign(&mut l, ATTACKER, 20, range(1, 50), range(0, 10)).unwrap();
    assert_eq!(report.rounds_executed, 20);
    assert_eq!(report.total_profit, 36);
    assert_eq!(l.pool().vault_tokens, 164);
    assert_eq!(report.candidates.len(), 20);
    assert_eq!(
        report.candidates[0],
        Candidate { deposit_amt: 1, transfer_amt: 0, max_redeemable: 2, profit: 1 }
    );
    assert_eq!(
        report.candidates[4],
        Candidate { deposit_amt: 49, transfer_amt: 0, max_redeemable: 51, profit: 2 }
    );
    let profit: u64 = report.candidates.iter().map(|c| c.profit).sum();
    assert_eq!(profit, report.total_profit);
    for (k, q) in report.pending_then_drained.iter().enumerate() {
        assert_eq!(q.sequence_id, k as u32);
        assert_eq!(q.state, RequestState::Withdrawn);
        assert_eq!(l.request(ATTACKER, q.sequence_id), Some(*q));
    }
}

#[test]
fn campaign_with_wide_ranges() {
    let mut l = imbalanced(100, 100);
    let report = run_campaign(&mut l, ATTACKER, 3, range(1, 1000), range(0, 200)).unwrap();
    assert_eq!(report.rounds_executed, 3);
    assert_eq!(report.total_profit, 5);
    assert_eq!(l.pool().vault_tokens, 195);
    assert_eq!(
        report.candidates[1],
        Candidate { deposit_amt: 199, transfer_amt: 0, max_redeemable: 201, profit: 2 }
    );
}

#[test]
fn campaign_vault_loses_exactly_the_profit() {
    for (stake, injected, rounds) in [(100u64, 100u64, 10u64), (10, 1000, 1), (37, 5, 4)] {
        let mut l = imbalanced(stake, injected);
        let start = l.pool().vault_tokens;
        let report = run_campaign(&mut l, ATTACKER, rounds, range(1, 60), range(0, 6)).unwrap();
        assert_eq!(l.pool().vault_tokens + report.total_profit, start);
        assert!(report.rounds_executed <= rounds);
    }
}

#[test]
fn campaign_on_a_fair_pool_stops_at_once() {
    let mut l = imbalanced(10, 0);
    let report = run_campaign(&mut l, ATTACKER, 200, range(1, 50), range(0, 10)).unwrap();
    assert_eq!(report.rounds_executed, 0);
    assert_eq!(report.total_profit, 0);
    assert!(report.pending_then_drained.is_empty());
    assert_eq!(l.pool().vault_tokens, 10);
}

#[test]
fn campaign_fails_when_the_vault_runs_dry() {
    let mut l = imbalanced(1, 1000);
    assert_eq!(
        run_campaign(&mut l, ATTACKER, 2, range(1, 5), range(0, 2)).err(),
        Some(PoolError::InsufficientVaultBalance)
    );
    assert_eq!(l.request(ATTACKER, 0).unwrap().state, RequestState::Withdrawn);
    assert_eq!(l.request(ATTACKER, 1).unwrap().state, RequestState::Pending);
    assert_eq!(l.pool().vault_tokens, 2);
}

#[test]
fn campaign_without_an_account_fails_only_when_something_is_found() {
    let mut l = imbalanced(100, 100);
    assert_eq!(
        run_campaign(&mut l, 7, 5, range(1, 10), range(0, 2)).err(),
        Some(PoolError::UnknownAccount)
    );
    assert_eq!(l.pool().vault_tokens, 200);
    let mut fair = imbalanced(10, 0);
    let report = run_campaign(&mut fair, 7, 5, range(1, 10), range(0, 2)).unwrap();
    assert_eq!(report.rounds_executed, 0);
}

#[test]
fn campaign_without_rounds_does_nothing() {
    let mut l = imbalanced(100, 100);
    let report = run_campaign(&mut l, ATTACKER, 0, range(1, 10), range(0, 2)).unwrap();
    assert_eq!(report.rounds_executed, 0);
    assert_eq!(l.pool().vault_tokens, 200);
}

#[test]
fn campaign_runs_out_of_sequence_ids() {
    let mut l = imbalanced(100, 100);
    let one = Amount { kind: AmountKind::Shares, value: 1 };
    l.request_unbond(VICTIM, u32::MAX - 1, one).unwrap();
    assert_eq!(
        run_campaign(&mut l, ATTACKER, 3, range(1, 10), range(0, 2)).err(),
        Some(PoolError::KeysExhausted)
    );
    // The first round committed under the last id before failing.
    assert_eq!(l.request(ATTACKER, u32::MAX).unwrap().state, RequestState::Pending);
}

#[test]
fn campaign_failing_before_any_commit_leaves_the_ledger_alone() {
    let mut l = imbalanced(100, 100);
    let before = l.pool();
    assert_eq!(
        run_campaign(&mut l, 7, 3, range(1, 10), range(0, 2)).err(),
        Some(PoolError::UnknownAccount)
    );
    assert_eq!(l.pool(), before);
    assert_eq!(l.next_sequence_id(), 0);
    assert_eq!(l.request(7, 0), None);
}
