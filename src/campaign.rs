use vstd::prelude::*;

use crate::conversion::{
    conversion_defined, lemma_shares_for_monotonic, shares_for, Amount, AmountKind, StakePool,
};
use crate::error::PoolError;
use crate::sums::{lemma_sum_add, lemma_sum_prefix_le, lemma_sum_push, lemma_sum_take_next, seq_sum};
use crate::ledger::{
    account_of, credit, has_account, has_request, is_key, keys_unique, lemma_account_within_pool,
    mark, request_of, RequestState, StakeAccount, StakeLedger, UnbondingRequest, SEQUENCE_ID_LIMIT,
};
use crate::search::{
    best_in_grid, best_in_row, cell_outcome, lemma_breakpoint_exact, pool_after,
    search, AmountRange, Candidate,
};

verus! {

/// What one committed round did: the pair chosen and the request made.
#[derive(Clone, Copy, Debug, PartialEq, Eq, Structural)]
pub struct RoundRecord {
    pub candidate: Candidate,
    pub request: UnbondingRequest,
}

/// The shares burned when the attacker, having committed candidate `c` on
/// pool `p`, requests the candidate's redeemable tokens.
pub open spec fn committed_burn(p: StakePool, c: Candidate) -> int {
    let paid = c.deposit_amt + c.transfer_amt;
    let minted = shares_for(p, c.deposit_amt as int);
    shares_for(pool_after(p, minted, paid), c.max_redeemable as int)
}

/// The pool once candidate `c` is committed on `p`: the deposit's shares are
/// minted, those of the request move to the unbonded supply, and the deposit
/// and the injection enter the vault.
pub open spec fn round_pool(p: StakePool, c: Candidate) -> StakePool {
    let minted = shares_for(p, c.deposit_amt as int);
    StakePool {
        shares_bonded: (p.shares_bonded + minted - committed_burn(p, c)) as u64,
        shares_unbonded: (p.shares_unbonded + committed_burn(p, c)) as u64,
        vault_tokens: (p.vault_tokens + c.deposit_amt + c.transfer_amt) as u64,
    }
}

/// The request a round makes for candidate `c` on ledger `a`: under the next
/// fresh sequence id, it reserves the candidate's redeemable tokens and burns
/// the shares they cost once the deposit and the injection are in.
pub open spec fn round_request(a: StakeLedger, attacker: u64, c: Candidate) -> UnbondingRequest {
    UnbondingRequest {
        owner: attacker,
        sequence_id: a.spec_next_id() as u32,
        shares_burned: committed_burn(a.spec_pool(), c) as u64,
        token_amount_reserved: c.max_redeemable,
        state: RequestState::Pending,
    }
}

/// The pairs that up to `rounds` rounds commit, starting from pool `p`:
/// each round takes the grid's best pair on the pool the previous rounds
/// left, and the first round that finds nothing ends the run.
pub open spec fn planned_rounds(p: StakePool, rounds: nat, deposits: AmountRange, transfers: AmountRange) -> Seq<Candidate>
    decreases rounds,
{
    if rounds == 0 || !conversion_defined(p) {
        Seq::empty()
    } else {
        match best_in_grid(p, deposits.start as int, deposits.end as int, transfers) {
            None => Seq::empty(),
            Some(c) => seq![c] + planned_rounds(
                round_pool(p, c),
                (rounds - 1) as nat,
                deposits,
                transfers,
            ),
        }
    }
}

/// What `run_campaign` returns on ledger `l`: the planned pairs, or the
/// first failure among a pool that cannot be priced, a missing account, too
/// few fresh sequence ids, and a vault that cannot pay out every request.
pub open spec fn campaign_outcome(
    l: StakeLedger,
    attacker: u64,
    rounds: u64,
    deposits: AmountRange,
    transfers: AmountRange,
) -> Result<Seq<Candidate>, PoolError> {
    let p = l.spec_pool();
    let plan = planned_rounds(p, rounds as nat, deposits, transfers);
    if rounds > 0 && !conversion_defined(p) {
        Err(PoolError::EmptyVault)
    } else if plan.len() > 0 && !has_account(l.spec_accounts(), attacker) {
        Err(PoolError::UnknownAccount)
    } else if l.spec_next_id() + plan.len() > SEQUENCE_ID_LIMIT {
        Err(PoolError::KeysExhausted)
    } else if p.vault_tokens < seq_sum(profits(plan)) {
        Err(PoolError::InsufficientVaultBalance)
    } else {
        Ok(plan)
    }
}

/// `b` is `a` after `run_round` returned `r`: the best pair of the grid on
/// the current pool is found; when there is one, the attacker deposits,
/// injects and requests the breakpoint amount under a fresh key.
pub open spec fn round_post(
    a: StakeLedger,
    b: StakeLedger,
    attacker: u64,
    deposits: AmountRange,
    transfers: AmountRange,
    r: Result<Option<RoundRecord>, PoolError>,
) -> bool {
    let p = a.spec_pool();
    if !conversion_defined(p) {
        r == Err::<Option<RoundRecord>, PoolError>(PoolError::EmptyVault) && b == a
    } else {
        match best_in_grid(p, deposits.start as int, deposits.end as int, transfers) {
            None => r == Ok::<Option<RoundRecord>, PoolError>(None) && b == a,
            Some(c) => if !has_account(a.spec_accounts(), attacker) {
                r == Err::<Option<RoundRecord>, PoolError>(PoolError::UnknownAccount) && b == a
            } else if a.spec_next_id() >= SEQUENCE_ID_LIMIT {
                r == Err::<Option<RoundRecord>, PoolError>(PoolError::KeysExhausted) && b == a
            } else {
                let q = round_request(a, attacker, c);
                let minted = shares_for(p, c.deposit_amt as int);
                &&& r == Ok::<Option<RoundRecord>, PoolError>(
                    Some(RoundRecord { candidate: c, request: q }),
                )
                &&& b.spec_pool() == round_pool(p, c)
                &&& b.spec_accounts() == credit(
                    a.spec_accounts(),
                    attacker,
                    minted - committed_burn(p, c),
                )
                &&& b.spec_requests() == a.spec_requests().push(q)
                &&& b.spec_next_id() == a.spec_next_id() + 1
            },
        }
    }
}

proof fn lemma_row_is_cell(pool: StakePool, d: u64, t_start: int, t_end: int)
    ensures
        best_in_row(pool, d, t_start, t_end) matches Some(c) ==> c.deposit_amt == d && cell_outcome(
            pool,
            d,
            c.transfer_amt,
        ) == Some(c),
    decreases t_end - t_start,
{
    if t_end > t_start {
        lemma_row_is_cell(pool, d, t_start, t_end - 1);
    }
}

proof fn lemma_grid_is_cell(pool: StakePool, d_start: int, d_end: int, transfers: AmountRange)
    ensures
        best_in_grid(pool, d_start, d_end, transfers) matches Some(c) ==> cell_outcome(
            pool,
            c.deposit_amt,
            c.transfer_amt,
        ) == Some(c),
    decreases d_end - d_start,
{
    if d_end > d_start {
        lemma_grid_is_cell(pool, d_start, d_end - 1, transfers);
        lemma_row_is_cell(pool, (d_end - 1) as u64, transfers.start as int, transfers.end as int);
    }
}

proof fn lemma_credit_compose(accounts: Seq<StakeAccount>, owner: u64, d1: int, d2: int)
    requires
        forall|i: int|
            0 <= i < accounts.len() && accounts[i].owner == owner ==> 0 <= accounts[i].bonded_shares
                + d1 <= u64::MAX && 0 <= accounts[i].bonded_shares + d1 + d2 <= u64::MAX,
    ensures
        credit(credit(accounts, owner, d1), owner, d2) == credit(accounts, owner, d1 + d2),
{
    assert(credit(credit(accounts, owner, d1), owner, d2) =~= credit(accounts, owner, d1 + d2));
}

/// One round: searches the grid on the ledger's current pool and, when a
/// pair gains something, commits it for `attacker` (deposit, injection,
/// then an unbonding request for the breakpoint amount under the next fresh
/// sequence id). Returns what was committed, or `None` for a round that
/// found nothing and changed nothing.
pub fn run_round(
    ledger: &mut StakeLedger,
    attacker: u64,
    deposits: AmountRange,
    transfers: AmountRange,
) -> (r: Result<Option<RoundRecord>, PoolError>)
    requires
        old(ledger).wf(),
    ensures
        final(ledger).wf(),
        round_post(*old(ledger), *final(ledger), attacker, deposits, transfers, r),
{
    let pool = ledger.pool();
    let best = match search(&pool, deposits, transfers) {
        Ok(b) => b,
        Err(e) => return Err(e),
    };
    let c = match best {
        Some(c) => c,
        None => return Ok(None),
    };
    if ledger.account_shares(attacker).is_none() {
        return Err(PoolError::UnknownAccount);
    }
    let next = ledger.next_sequence_id();
    if next >= SEQUENCE_ID_LIMIT {
        return Err(PoolError::KeysExhausted);
    }
    let sequence_id = next as u32;
    let ghost l0 = *ledger;
    let ghost paid = c.deposit_amt + c.transfer_amt;
    let ghost minted = shares_for(pool, c.deposit_amt as int);
    let ghost after = pool_after(pool, minted, paid);
    let ghost q = round_request(l0, attacker, c);
    proof {
        lemma_grid_is_cell(pool, deposits.start as int, deposits.end as int, transfers);
        lemma_breakpoint_exact(after, minted);
        lemma_shares_for_monotonic(after, 0, c.max_redeemable as int);
        lemma_account_within_pool(l0, attacker);
        assert(!has_request(l0.spec_requests(), attacker, sequence_id));
    }
    match ledger.deposit(attacker, c.deposit_amt) {
        Ok(_) => {},
        // The searched cell fits in 64 bits, so the deposit goes through.
        Err(e) => {
            proof {
                assert(false);
            }
            return Err(e);
        },
    }
    let ghost l1 = *ledger;
    proof {
        let j = choose|j: int|
            0 <= j < l0.spec_accounts().len() && l0.spec_accounts()[j].owner == attacker;
        assert(l1.spec_accounts()[j].owner == attacker);
        lemma_account_within_pool(l1, attacker);
    }
    match ledger.inject_tokens(c.transfer_amt) {
        Ok(_) => {},
        // So does the injection.
        Err(e) => {
            proof {
                assert(false);
            }
            return Err(e);
        },
    }
    let ghost l2 = *ledger;
    let amount = Amount { kind: AmountKind::Tokens, value: c.max_redeemable };
    let made = match ledger.request_unbond(attacker, sequence_id, amount) {
        Ok(made) => made,
        // The key is fresh, and the breakpoint costs at most the shares just minted.
        Err(e) => {
            proof {
                assert(account_of(l2.spec_accounts(), attacker) == account_of(
                    l1.spec_accounts(),
                    attacker,
                ));
                assert(false);
            }
            return Err(e);
        },
    };
    proof {
        lemma_credit_compose(l0.spec_accounts(), attacker, minted, -(q.shares_burned as int));
    }
    Ok(Some(RoundRecord { candidate: c, request: made }))
}

/// What a campaign reports: the gain over what the attacker paid in, the
/// rounds that committed something, and per round the pair chosen and the
/// request made, as the ledger holds it once drained.
#[derive(Debug)]
pub struct CampaignReport {
    pub total_profit: u64,
    pub rounds_executed: u64,
    pub candidates: Vec<Candidate>,
    pub pending_then_drained: Vec<UnbondingRequest>,
}

/// The profit of each pair.
pub open spec fn profits(cands: Seq<Candidate>) -> Seq<int> {
    cands.map_values(|c: Candidate| c.profit as int)
}

/// The tokens each pair brings into the vault.
pub open spec fn paid_in(cands: Seq<Candidate>) -> Seq<int> {
    cands.map_values(|c: Candidate| c.deposit_amt + c.transfer_amt)
}

/// The tokens each pair redeems.
pub open spec fn redeemed(cands: Seq<Candidate>) -> Seq<int> {
    cands.map_values(|c: Candidate| c.max_redeemable as int)
}

/// A committed round's pair gains something, and its request belongs to the
/// attacker and reserves the pair's redeemable tokens.
pub open spec fn committed_shape(c: Candidate, q: UnbondingRequest, attacker: u64) -> bool {
    &&& c.profit > 0
    &&& c.max_redeemable == c.deposit_amt + c.transfer_amt + c.profit
    &&& q.owner == attacker
    &&& q.token_amount_reserved == c.max_redeemable
}

proof fn lemma_push_keeps(s: Seq<UnbondingRequest>, x: UnbondingRequest, owner: u64, sequence_id: u32)
    requires
        keys_unique(s),
        keys_unique(s.push(x)),
        has_request(s, owner, sequence_id),
    ensures
        has_request(s.push(x), owner, sequence_id),
        request_of(s.push(x), owner, sequence_id) == request_of(s, owner, sequence_id),
{
    let t = s.push(x);
    let j = choose|j: int| 0 <= j < s.len() && is_key(s[j], owner, sequence_id);
    assert(is_key(t[j], owner, sequence_id));
    let k = choose|k: int| 0 <= k < t.len() && is_key(t[k], owner, sequence_id);
    assert(is_key(t[k], t[j].owner, t[j].sequence_id));
}

proof fn lemma_push_new(s: Seq<UnbondingRequest>, x: UnbondingRequest)
    requires
        keys_unique(s.push(x)),
    ensures
        has_request(s.push(x), x.owner, x.sequence_id),
        request_of(s.push(x), x.owner, x.sequence_id) == x,
{
    let t = s.push(x);
    assert(is_key(t[s.len() as int], x.owner, x.sequence_id));
    let k = choose|k: int| 0 <= k < t.len() && is_key(t[k], x.owner, x.sequence_id);
    assert(is_key(t[k], t[s.len() as int].owner, t[s.len() as int].sequence_id));
}

proof fn lemma_mark_keeps(
    s: Seq<UnbondingRequest>,
    o2: u64,
    q2: u32,
    state: RequestState,
    owner: u64,
    sequence_id: u32,
)
    requires
        keys_unique(s),
        has_request(s, owner, sequence_id),
    ensures
        has_request(mark(s, o2, q2, state), owner, sequence_id),
        !(owner == o2 && sequence_id == q2) ==> request_of(mark(s, o2, q2, state), owner, sequence_id)
            == request_of(s, owner, sequence_id),
        owner == o2 && sequence_id == q2 ==> request_of(mark(s, o2, q2, state), owner, sequence_id)
            == (UnbondingRequest { state, ..request_of(s, owner, sequence_id) }),
{
    let m = mark(s, o2, q2, state);
    let j = choose|j: int| 0 <= j < s.len() && is_key(s[j], owner, sequence_id);
    assert(is_key(m[j], owner, sequence_id));
    let k = choose|k: int| 0 <= k < m.len() && is_key(m[k], owner, sequence_id);
    assert(is_key(s[k], s[j].owner, s[j].sequence_id));
}

proof fn lemma_credit_keeps_owners(accounts: Seq<StakeAccount>, owner: u64, delta: int, who: u64)
    ensures
        has_account(credit(accounts, owner, delta), who) == has_account(accounts, who),
{
    let c = credit(accounts, owner, delta);
    if has_account(c, who) {
        let j = choose|j: int| 0 <= j < c.len() && c[j].owner == who;
        assert(accounts[j].owner == who);
    }
    if has_account(accounts, who) {
        let j = choose|j: int| 0 <= j < accounts.len() && accounts[j].owner == who;
        assert(c[j].owner == who);
    }
}

proof fn lemma_round_keeps_defined(p: StakePool, c: Candidate)
    requires
        conversion_defined(p),
        cell_outcome(p, c.deposit_amt, c.transfer_amt) == Some(c),
    ensures
        conversion_defined(round_pool(p, c)),
{
}

/// The `k`-th sequence id a campaign uses: the ids count up from the
/// ledger's counter as it stood when the campaign began.
pub open spec fn campaign_key(first_id: int, k: int) -> u32 {
    (first_id + k) as u32
}

/// Ledger `b` is ledger `a` after a campaign for `attacker` committed the
/// first `made` pairs of `plan` and withdrew the first `withdrawn` of their
/// requests: the requests `a` held are untouched, each committed pair has a
/// request under the next key that reserves its redeemable tokens and is
/// withdrawn or still pending, and the vault holds what `a` held plus what
/// came in less what went out.
pub open spec fn campaign_progress(
    a: StakeLedger,
    b: StakeLedger,
    attacker: u64,
    plan: Seq<Candidate>,
    made: int,
    withdrawn: int,
) -> bool {
    let before = a.spec_requests();
    let after = b.spec_requests();
    &&& after.len() == before.len() + made
    &&& forall|i: int| 0 <= i < before.len() ==> after[i] == before[i]
    &&& forall|k: int|
        0 <= k < made ==> {
            let q = request_of(after, attacker, #[trigger] campaign_key(a.spec_next_id(), k));
            &&& has_request(after, attacker, campaign_key(a.spec_next_id(), k))
            &&& q.token_amount_reserved == plan[k].max_redeemable
            &&& q.state == if k < withdrawn {
                RequestState::Withdrawn
            } else {
                RequestState::Pending
            }
        }
    &&& b.spec_pool().vault_tokens + seq_sum(redeemed(plan).take(withdrawn)) == a.spec_pool().vault_tokens
        + seq_sum(paid_in(plan.take(made)))
}

/// Runs up to `rounds` rounds for `attacker`, stopping at the first round
/// that finds nothing, then withdraws every request made, in order. The
/// pairs committed are the planned ones, and the vault loses exactly the
/// profit reported: what was withdrawn less what was paid in. The first
/// failing ledger operation ends the campaign: a failure before any commit
/// leaves the ledger as it was, running out of sequence ids leaves the
/// committed requests pending, and a vault that cannot pay leaves the
/// requests before the failing one withdrawn and the rest pending.
pub fn run_campaign(
    ledger: &mut StakeLedger,
    attacker: u64,
    rounds: u64,
    deposits: AmountRange,
    transfers: AmountRange,
) -> (r: Result<CampaignReport, PoolError>)
    requires
        old(ledger).wf(),
    ensures
        final(ledger).wf(),
        match campaign_outcome(*old(ledger), attacker, rounds, deposits, transfers) {
            Err(e) => r == Err::<CampaignReport, PoolError>(e),
            Ok(plan) => r matches Ok(rep) && rep.candidates@ == plan,
        },
        r matches Err(e) ==> {
            let plan = planned_rounds(old(ledger).spec_pool(), rounds as nat, deposits, transfers);
            &&& (e == PoolError::EmptyVault || e == PoolError::UnknownAccount) ==> *final(ledger)
                == *old(ledger)
            &&& e == PoolError::KeysExhausted ==> campaign_progress(
                *old(ledger),
                *final(ledger),
                attacker,
                plan,
                SEQUENCE_ID_LIMIT - old(ledger).spec_next_id(),
                0,
            )
            &&& e == PoolError::InsufficientVaultBalance ==> exists|j: int|
                0 <= j < plan.len() && campaign_progress(
                    *old(ledger),
                    *final(ledger),
                    attacker,
                    plan,
                    plan.len() as int,
                    j,
                ) && final(ledger).spec_pool().vault_tokens < plan[j].max_redeemable
        },
        r matches Ok(rep) ==> campaign_progress(
            *old(ledger),
            *final(ledger),
            attacker,
            rep.candidates@,
            rep.candidates@.len() as int,
            rep.candidates@.len() as int,
        ),
        r matches Ok(rep) ==> {
            let cands = rep.candidates@;
            let reqs = rep.pending_then_drained@;
            let final_requests = final(ledger).spec_requests();
            &&& rep.rounds_executed == cands.len()
            &&& reqs.len() == cands.len()
            &&& rep.rounds_executed <= rounds
            &&& rep.total_profit == seq_sum(profits(cands))
            &&& final(ledger).spec_pool().vault_tokens + rep.total_profit == old(
                ledger,
            ).spec_pool().vault_tokens
            &&& forall|k: int|
                0 <= k < cands.len() ==> {
                    &&& committed_shape(cands[k], #[trigger] reqs[k], attacker)
                    &&& reqs[k].state == RequestState::Withdrawn
                    &&& has_request(final_requests, attacker, reqs[k].sequence_id)
                    &&& request_of(final_requests, attacker, reqs[k].sequence_id) == reqs[k]
                }
            &&& forall|k1: int, k2: int|
                0 <= k1 < k2 < reqs.len() ==> reqs[k1].sequence_id < reqs[k2].sequence_id
        },
{
    let ghost start = *ledger;
    let ghost plan = planned_rounds(start.spec_pool(), rounds as nat, deposits, transfers);
    let mut cands: Vec<Candidate> = Vec::new();
    let mut made: Vec<UnbondingRequest> = Vec::new();
    let mut profit: u128 = 0;
    let mut i: u64 = 0;
    let mut done = false;
    while i < rounds && !done
        invariant
            ledger.wf(),
            i <= rounds,
            done ==> i > 0,
            cands@.len() == made@.len(),
            cands@.len() <= i,
            i == 0 ==> ledger.spec_pool() == start.spec_pool(),
            i > 0 ==> conversion_defined(start.spec_pool()) && conversion_defined(
                ledger.spec_pool(),
            ),
            start == *old(ledger),
            start.wf(),
            cands@.len() == 0 ==> *ledger == start,
            ledger.spec_requests().len() == start.spec_requests().len() + made@.len(),
            forall|m: int|
                0 <= m < start.spec_requests().len() ==> ledger.spec_requests()[m]
                    == start.spec_requests()[m],
            plan == planned_rounds(start.spec_pool(), rounds as nat, deposits, transfers),
            cands@ + (if done {
                Seq::<Candidate>::empty()
            } else {
                planned_rounds(ledger.spec_pool(), (rounds - i) as nat, deposits, transfers)
            }) == plan,
            has_account(ledger.spec_accounts(), attacker) == has_account(
                start.spec_accounts(),
                attacker,
            ),
            cands@.len() > 0 ==> has_account(start.spec_accounts(), attacker),
            ledger.spec_next_id() == start.spec_next_id() + cands@.len(),
            forall|k: int|
                0 <= k < cands@.len() ==> {
                    &&& committed_shape(cands@[k], #[trigger] made@[k], attacker)
                    &&& made@[k].state == RequestState::Pending
                    &&& made@[k].sequence_id == campaign_key(start.spec_next_id(), k)
                    &&& made@[k].sequence_id < ledger.spec_next_id()
                    &&& has_request(ledger.spec_requests(), attacker, made@[k].sequence_id)
                    &&& request_of(ledger.spec_requests(), attacker, made@[k].sequence_id)
                        == made@[k]
                },
            forall|k1: int, k2: int|
                0 <= k1 < k2 < made@.len() ==> made@[k1].sequence_id < made@[k2].sequence_id,
            ledger.spec_pool().vault_tokens == start.spec_pool().vault_tokens + seq_sum(
                paid_in(cands@),
            ),
            profit == seq_sum(profits(cands@)),
            seq_sum(profits(cands@)) <= cands@.len() * u64::MAX,
        decreases rounds - i,
    {
        let ghost before = *ledger;
        let ghost n = (rounds - i) as nat;
        match run_round(ledger, attacker, deposits, transfers) {
            Err(e) => {
                proof {
                    let p = before.spec_pool();
                    assert(n > 0);
                    if !conversion_defined(p) {
                        assert(i == 0);
                    } else {
                        let c = best_in_grid(
                            p,
                            deposits.start as int,
                            deposits.end as int,
                            transfers,
                        )->Some_0;
                        let rest = planned_rounds(
                            round_pool(p, c),
                            (n - 1) as nat,
                            deposits,
                            transfers,
                        );
                        assert(planned_rounds(p, n, deposits, transfers) == seq![c] + rest);
                        assert(plan.len() == cands@.len() + 1 + rest.len());
                        if e == PoolError::KeysExhausted {
                            let m = cands@.len() as int;
                            assert(plan.take(m) =~= cands@);
                            assert(redeemed(plan).take(0) =~= Seq::<int>::empty());
                            assert forall|k: int| 0 <= k < m implies {
                                let key = #[trigger] campaign_key(start.spec_next_id(), k);
                                let q = request_of(before.spec_requests(), attacker, key);
                                &&& has_request(before.spec_requests(), attacker, key)
                                &&& q.token_amount_reserved == plan[k].max_redeemable
                                &&& q.state == RequestState::Pending
                            } by {
                                assert(committed_shape(cands@[k], made@[k], attacker));
                                assert(plan[k] == cands@[k]);
                            }
                        }
                    }
                    if e == PoolError::EmptyVault || e == PoolError::UnknownAccount {
                        assert(cands@.len() == 0);
                    }
                }
                return Err(e);
            },
            Ok(None) => {
                done = true;
                proof {
                    assert(cands@ + Seq::<Candidate>::empty() =~= cands@);
                }
            },
            Ok(Some(rec)) => {
                proof {
                    let p = before.spec_pool();
                    let c = rec.candidate;
                    lemma_grid_is_cell(p, deposits.start as int, deposits.end as int, transfers);
                    lemma_round_keeps_defined(p, c);
                    lemma_credit_keeps_owners(
                        before.spec_accounts(),
                        attacker,
                        shares_for(p, c.deposit_amt as int) - committed_burn(p, c),
                        attacker,
                    );
                    let rest = planned_rounds(round_pool(p, c), (n - 1) as nat, deposits, transfers);
                    assert(cands@.push(c) + rest =~= cands@ + (seq![c] + rest));
                    let s0 = before.spec_requests();
                    assert forall|k: int| 0 <= k < made@.len() implies {
                        &&& has_request(ledger.spec_requests(), attacker, #[trigger] made@[k].sequence_id)
                        &&& request_of(ledger.spec_requests(), attacker, made@[k].sequence_id)
                            == made@[k]
                    } by {
                        lemma_push_keeps(s0, rec.request, attacker, made@[k].sequence_id);
                    }
                    lemma_push_new(s0, rec.request);
                    assert(paid_in(cands@.push(c)) =~= paid_in(cands@).push(
                        c.deposit_amt + c.transfer_amt,
                    ));
                    lemma_sum_push(paid_in(cands@), c.deposit_amt + c.transfer_amt);
                    assert(profits(cands@.push(c)) =~= profits(cands@).push(c.profit as int));
                    lemma_sum_push(profits(cands@), c.profit as int);
                }
                cands.push(rec.candidate);
                made.push(rec.request);
                profit = profit + rec.candidate.profit as u128;
            },
        }
        i = i + 1;
    }
    proof {
        if !done {
            assert(cands@ + Seq::<Candidate>::empty() =~= cands@);
        }
        assert(cands@ == plan);
        assert forall|k: int| 0 <= k < cands@.len() implies redeemed(cands@)[k] == paid_in(cands@)[k]
            + profits(cands@)[k] by {
            assert(committed_shape(cands@[k], made@[k], attacker));
        }
        lemma_sum_add(redeemed(cands@), paid_in(cands@), profits(cands@));
    }
    let mut drained: Vec<UnbondingRequest> = Vec::new();
    let mut j: usize = 0;
    while j < made.len()
        invariant
            ledger.wf(),
            j <= made@.len(),
            drained@.len() == j,
            cands@.len() == made@.len(),
            start == *old(ledger),
            start.wf(),
            ledger.spec_requests().len() == start.spec_requests().len() + made@.len(),
            forall|m: int|
                0 <= m < start.spec_requests().len() ==> ledger.spec_requests()[m]
                    == start.spec_requests()[m],
            plan == planned_rounds(start.spec_pool(), rounds as nat, deposits, transfers),
            cands@ == plan,
            rounds > 0 ==> conversion_defined(start.spec_pool()),
            cands@.len() > 0 ==> has_account(start.spec_accounts(), attacker),
            start.spec_next_id() + cands@.len() <= SEQUENCE_ID_LIMIT,
            cands@.len() <= rounds,
            forall|k: int|
                0 <= k < cands@.len() ==> {
                    &&& committed_shape(cands@[k], #[trigger] made@[k], attacker)
                    &&& made@[k].sequence_id == campaign_key(start.spec_next_id(), k)
                    &&& has_request(ledger.spec_requests(), attacker, made@[k].sequence_id)
                },
            forall|k: int|
                j <= k < made@.len() ==> request_of(
                    ledger.spec_requests(),
                    attacker,
                    #[trigger] made@[k].sequence_id,
                ) == made@[k] && made@[k].state == RequestState::Pending,
            forall|k: int|
                0 <= k < j ==> {
                    &&& #[trigger] drained@[k] == (UnbondingRequest {
                        state: RequestState::Withdrawn,
                        ..made@[k]
                    })
                    &&& request_of(ledger.spec_requests(), attacker, made@[k].sequence_id)
                        == drained@[k]
                },
            forall|k1: int, k2: int|
                0 <= k1 < k2 < made@.len() ==> made@[k1].sequence_id < made@[k2].sequence_id,
            ledger.spec_pool().vault_tokens + seq_sum(redeemed(cands@).take(j as int))
                == start.spec_pool().vault_tokens + seq_sum(paid_in(cands@)),
            seq_sum(redeemed(cands@)) == seq_sum(paid_in(cands@)) + seq_sum(profits(cands@)),
            profit == seq_sum(profits(cands@)),
        decreases made@.len() - j,
    {
        let q = made[j];
        let ghost before = *ledger;
        match ledger.withdraw(attacker, q.sequence_id) {
            Ok(_) => {},
            Err(e) => {
                proof {
                    assert(committed_shape(cands@[j as int], made@[j as int], attacker));
                    assert(request_of(before.spec_requests(), attacker, q.sequence_id) == q);
                    assert(e == PoolError::InsufficientVaultBalance);
                    assert(before.spec_pool().vault_tokens < q.token_amount_reserved);
                    lemma_sum_take_next(redeemed(cands@), j as int);
                    lemma_sum_prefix_le(redeemed(cands@), j as int + 1);
                    assert(start.spec_pool().vault_tokens < seq_sum(profits(plan)));
                    assert(plan.take(plan.len() as int) =~= plan);
                    assert forall|k: int| 0 <= k < plan.len() implies {
                        let key = #[trigger] campaign_key(start.spec_next_id(), k);
                        let r = request_of(before.spec_requests(), attacker, key);
                        &&& has_request(before.spec_requests(), attacker, key)
                        &&& r.token_amount_reserved == plan[k].max_redeemable
                        &&& r.state == if k < j {
                            RequestState::Withdrawn
                        } else {
                            RequestState::Pending
                        }
                    } by {
                        assert(committed_shape(cands@[k], made@[k], attacker));
                        if k < j {
                            assert(drained@[k].sequence_id == made@[k].sequence_id);
                        }
                    }
                    assert(campaign_progress(
                        start,
                        before,
                        attacker,
                        plan,
                        plan.len() as int,
                        j as int,
                    ));
                }
                return Err(e);
            },
        }
        proof {
            let s0 = before.spec_requests();
            assert forall|k: int| 0 <= k < made@.len() implies {
                &&& has_request(ledger.spec_requests(), attacker, #[trigger] made@[k].sequence_id)
                &&& (k != j ==> request_of(ledger.spec_requests(), attacker, made@[k].sequence_id)
                    == request_of(s0, attacker, made@[k].sequence_id))
            } by {
                lemma_mark_keeps(
                    s0,
                    attacker,
                    q.sequence_id,
                    RequestState::Withdrawn,
                    attacker,
                    made@[k].sequence_id,
                );
                if k < j {
                    assert(made@[k].sequence_id < made@[j as int].sequence_id);
                } else if k > j {
                    assert(made@[j as int].sequence_id < made@[k].sequence_id);
                }
            }
            lemma_mark_keeps(
                s0,
                attacker,
                q.sequence_id,
                RequestState::Withdrawn,
                attacker,
                q.sequence_id,
            );
            lemma_sum_take_next(redeemed(cands@), j as int);
        }
        drained.push(UnbondingRequest { state: RequestState::Withdrawn, ..q });
        j = j + 1;
    }
    proof {
        assert(redeemed(cands@).take(made@.len() as int) =~= redeemed(cands@));
        assert(cands@.take(cands@.len() as int) =~= cands@);
        assert forall|k: int| 0 <= k < cands@.len() implies {
            let key = #[trigger] campaign_key(start.spec_next_id(), k);
            let r = request_of(ledger.spec_requests(), attacker, key);
            &&& has_request(ledger.spec_requests(), attacker, key)
            &&& r.token_amount_reserved == cands@[k].max_redeemable
            &&& r.state == RequestState::Withdrawn
        } by {
            assert(committed_shape(cands@[k], made@[k], attacker));
            assert(drained@[k].sequence_id == made@[k].sequence_id);
        }
    }
    Ok(
        CampaignReport {
            total_profit: profit as u64,
            rounds_executed: cands.len() as u64,
            candidates: cands,
            pending_then_drained: drained,
        },
    )
}

} // verus!
