use vstd::prelude::*;

use crate::conversion::{
    convert_amount, convert_amount_result, shares_for_tokens, shares_for_tokens_result,
    total_shares, Amount, AmountKind, StakePool,
};
use crate::error::PoolError;
use crate::sums::{lemma_sum_bounds_element, lemma_sum_push, lemma_sum_update, seq_sum};

verus! {

/// The bonded shares that one principal owns.
#[derive(Clone, Copy, Debug, PartialEq, Eq, Structural)]
pub struct StakeAccount {
    pub owner: u64,
    pub bonded_shares: u64,
}

/// Where an unbonding request stands. Only `Pending` can change.
#[derive(Clone, Copy, Debug, PartialEq, Eq, Structural)]
pub enum RequestState {
    Pending,
    Cancelled,
    Withdrawn,
}

/// Shares burned by their owner against tokens reserved for a later
/// withdrawal, keyed by the owner and a sequence id.
#[derive(Clone, Copy, Debug, PartialEq, Eq, Structural)]
pub struct UnbondingRequest {
    pub owner: u64,
    pub sequence_id: u32,
    pub shares_burned: u64,
    pub token_amount_reserved: u64,
    pub state: RequestState,
}

/// The pool, the stake accounts of its principals and every unbonding
/// request ever made, with the counter that gives out fresh sequence ids.
pub struct StakeLedger {
    pool: StakePool,
    accounts: Vec<StakeAccount>,
    requests: Vec<UnbondingRequest>,
    next_sequence_id: u64,
}

/// The exclusive bound on sequence ids: they are 32-bit.
pub const SEQUENCE_ID_LIMIT: u64 = 0x1_0000_0000;

/// `owner` has a stake account.
pub open spec fn has_account(accounts: Seq<StakeAccount>, owner: u64) -> bool {
    exists|i: int| 0 <= i < accounts.len() && accounts[i].owner == owner
}

/// The account of `owner`, where there is one.
pub open spec fn account_of(accounts: Seq<StakeAccount>, owner: u64) -> StakeAccount {
    accounts[choose|i: int| 0 <= i < accounts.len() && accounts[i].owner == owner]
}

/// No owner has two accounts.
pub open spec fn owners_unique(accounts: Seq<StakeAccount>) -> bool {
    forall|i: int, j: int|
        0 <= i < accounts.len() && 0 <= j < accounts.len() && accounts[i].owner == accounts[j].owner
            ==> i == j
}

/// `q` is keyed by `owner` and `sequence_id`.
pub open spec fn is_key(q: UnbondingRequest, owner: u64, sequence_id: u32) -> bool {
    q.owner == owner && q.sequence_id == sequence_id
}

/// A request keyed by `owner` and `sequence_id` exists, whatever its state.
pub open spec fn has_request(requests: Seq<UnbondingRequest>, owner: u64, sequence_id: u32) -> bool {
    exists|i: int| 0 <= i < requests.len() && is_key(requests[i], owner, sequence_id)
}

/// The request keyed by `owner` and `sequence_id`, where there is one.
pub open spec fn request_of(requests: Seq<UnbondingRequest>, owner: u64, sequence_id: u32) -> UnbondingRequest {
    requests[choose|i: int| 0 <= i < requests.len() && is_key(requests[i], owner, sequence_id)]
}

/// No two requests share a key.
pub open spec fn keys_unique(requests: Seq<UnbondingRequest>) -> bool {
    forall|i: int, j: int|
        0 <= i < requests.len() && 0 <= j < requests.len() && is_key(
            requests[i],
            requests[j].owner,
            requests[j].sequence_id,
        ) ==> i == j
}

/// The accounts with `delta` added to the bonded shares of `owner`.
pub open spec fn credit(accounts: Seq<StakeAccount>, owner: u64, delta: int) -> Seq<StakeAccount> {
    accounts.map_values(
        |a: StakeAccount|
            if a.owner == owner {
                StakeAccount { owner: a.owner, bonded_shares: (a.bonded_shares + delta) as u64 }
            } else {
                a
            },
    )
}

/// The requests with the one keyed by `owner` and `sequence_id` moved to `state`.
pub open spec fn mark(
    requests: Seq<UnbondingRequest>,
    owner: u64,
    sequence_id: u32,
    state: RequestState,
) -> Seq<UnbondingRequest> {
    requests.map_values(
        |q: UnbondingRequest|
            if is_key(q, owner, sequence_id) {
                UnbondingRequest {
                    owner: q.owner,
                    sequence_id: q.sequence_id,
                    shares_burned: q.shares_burned,
                    token_amount_reserved: q.token_amount_reserved,
                    state,
                }
            } else {
                q
            },
    )
}

/// The bonded shares of each account.
pub open spec fn bonded_amounts(accounts: Seq<StakeAccount>) -> Seq<int> {
    accounts.map_values(|a: StakeAccount| a.bonded_shares as int)
}

/// The shares burned by each request that is still pending; zero for the others.
pub open spec fn pending_amounts(requests: Seq<UnbondingRequest>) -> Seq<int> {
    requests.map_values(
        |q: UnbondingRequest|
            if q.state == RequestState::Pending {
                q.shares_burned as int
            } else {
                0
            },
    )
}

/// `b` is `a` after `open_account(owner)` returned `r`.
pub open spec fn open_account_post(a: StakeLedger, b: StakeLedger, owner: u64, r: Result<(), PoolError>) -> bool {
    if has_account(a.spec_accounts(), owner) {
        r == Err::<(), PoolError>(PoolError::DuplicateAccount) && b == a
    } else {
        &&& r == Ok::<(), PoolError>(())
        &&& b.spec_pool() == a.spec_pool()
        &&& b.spec_accounts() == a.spec_accounts().push(StakeAccount { owner, bonded_shares: 0 })
        &&& b.spec_requests() == a.spec_requests()
        &&& b.spec_next_id() == a.spec_next_id()
    }
}

/// `b` is `a` after `deposit(owner, tokens)` returned `r`: the shares that
/// `tokens` buy at the current rate are minted to the owner's account and the
/// tokens enter the vault.
pub open spec fn deposit_post(a: StakeLedger, b: StakeLedger, owner: u64, tokens: u64, r: Result<u64, PoolError>) -> bool {
    let p = a.spec_pool();
    if !has_account(a.spec_accounts(), owner) {
        r == Err::<u64, PoolError>(PoolError::UnknownAccount) && b == a
    } else {
        match shares_for_tokens_result(p, tokens as int) {
            Err(e) => r == Err::<u64, PoolError>(e) && b == a,
            Ok(minted) => if total_shares(p) + minted > u64::MAX || p.vault_tokens + tokens > u64::MAX {
                r == Err::<u64, PoolError>(PoolError::Overflow) && b == a
            } else {
                &&& r == Ok::<u64, PoolError>(minted)
                &&& b.spec_pool() == StakePool {
                    shares_bonded: (p.shares_bonded + minted) as u64,
                    shares_unbonded: p.shares_unbonded,
                    vault_tokens: (p.vault_tokens + tokens) as u64,
                }
                &&& b.spec_accounts() == credit(a.spec_accounts(), owner, minted as int)
                &&& b.spec_requests() == a.spec_requests()
                &&& b.spec_next_id() == a.spec_next_id()
            },
        }
    }
}

/// `b` is `a` after `inject_tokens(amount)` returned `r`: the vault grows and
/// no share is minted.
pub open spec fn inject_post(a: StakeLedger, b: StakeLedger, amount: u64, r: Result<(), PoolError>) -> bool {
    let p = a.spec_pool();
    if p.vault_tokens + amount > u64::MAX {
        r == Err::<(), PoolError>(PoolError::Overflow) && b == a
    } else {
        &&& r == Ok::<(), PoolError>(())
        &&& b.spec_pool() == StakePool {
            shares_bonded: p.shares_bonded,
            shares_unbonded: p.shares_unbonded,
            vault_tokens: (p.vault_tokens + amount) as u64,
        }
        &&& b.spec_accounts() == a.spec_accounts()
        &&& b.spec_requests() == a.spec_requests()
        &&& b.spec_next_id() == a.spec_next_id()
    }
}

/// The request that `request_unbond` records for an amount converted to `full`.
pub open spec fn new_request(owner: u64, sequence_id: u32, full: crate::conversion::FullAmount) -> UnbondingRequest {
    UnbondingRequest {
        owner,
        sequence_id,
        shares_burned: full.shares,
        token_amount_reserved: full.tokens,
        state: RequestState::Pending,
    }
}

/// `b` is `a` after `request_unbond(owner, sequence_id, amount)` returned
/// `r`: a share amount is first held against the owner's bonded shares; the
/// amount is converted at the current rate, its shares move from
/// the owner's bonded shares to the pool's unbonded ones, and a pending
/// request reserves its tokens.
pub open spec fn request_unbond_post(
    a: StakeLedger,
    b: StakeLedger,
    owner: u64,
    sequence_id: u32,
    amount: Amount,
    r: Result<UnbondingRequest, PoolError>,
) -> bool {
    let p = a.spec_pool();
    if !has_account(a.spec_accounts(), owner) {
        r == Err::<UnbondingRequest, PoolError>(PoolError::UnknownAccount) && b == a
    } else if has_request(a.spec_requests(), owner, sequence_id) {
        r == Err::<UnbondingRequest, PoolError>(PoolError::DuplicateRequestKey) && b == a
    } else if amount.kind == AmountKind::Shares && account_of(a.spec_accounts(), owner).bonded_shares
        < amount.value {
        r == Err::<UnbondingRequest, PoolError>(PoolError::InsufficientShares) && b == a
    } else {
        match convert_amount_result(p, amount) {
            Err(e) => r == Err::<UnbondingRequest, PoolError>(e) && b == a,
            Ok(full) => if account_of(a.spec_accounts(), owner).bonded_shares < full.shares {
                r == Err::<UnbondingRequest, PoolError>(PoolError::InsufficientShares) && b == a
            } else {
                &&& r == Ok::<UnbondingRequest, PoolError>(new_request(owner, sequence_id, full))
                &&& b.spec_pool() == StakePool {
                    shares_bonded: (p.shares_bonded - full.shares) as u64,
                    shares_unbonded: (p.shares_unbonded + full.shares) as u64,
                    vault_tokens: p.vault_tokens,
                }
                &&& b.spec_accounts() == credit(a.spec_accounts(), owner, -full.shares)
                &&& b.spec_requests() == a.spec_requests().push(new_request(owner, sequence_id, full))
                &&& b.spec_next_id() == if sequence_id + 1 > a.spec_next_id() {
                    sequence_id + 1
                } else {
                    a.spec_next_id()
                }
            },
        }
    }
}

/// `b` is `a` after `cancel_unbond(owner, sequence_id)` returned `r`: a
/// pending request's shares go back to the owner's bonded shares and the
/// request is cancelled.
pub open spec fn cancel_unbond_post(
    a: StakeLedger,
    b: StakeLedger,
    owner: u64,
    sequence_id: u32,
    r: Result<(), PoolError>,
) -> bool {
    let p = a.spec_pool();
    let q = request_of(a.spec_requests(), owner, sequence_id);
    if !has_request(a.spec_requests(), owner, sequence_id) {
        r == Err::<(), PoolError>(PoolError::UnknownRequest) && b == a
    } else if q.state != RequestState::Pending {
        r == Err::<(), PoolError>(PoolError::InvalidState) && b == a
    } else {
        &&& r == Ok::<(), PoolError>(())
        &&& b.spec_pool() == StakePool {
            shares_bonded: (p.shares_bonded + q.shares_burned) as u64,
            shares_unbonded: (p.shares_unbonded - q.shares_burned) as u64,
            vault_tokens: p.vault_tokens,
        }
        &&& b.spec_accounts() == credit(a.spec_accounts(), owner, q.shares_burned as int)
        &&& b.spec_requests() == mark(a.spec_requests(), owner, sequence_id, RequestState::Cancelled)
        &&& b.spec_next_id() == a.spec_next_id()
    }
}

/// `b` is `a` after `withdraw(owner, sequence_id)` returned `r`: a pending
/// request's reserved tokens leave the vault, its shares leave the supply,
/// and the request is withdrawn.
pub open spec fn withdraw_post(
    a: StakeLedger,
    b: StakeLedger,
    owner: u64,
    sequence_id: u32,
    r: Result<u64, PoolError>,
) -> bool {
    let p = a.spec_pool();
    let q = request_of(a.spec_requests(), owner, sequence_id);
    if !has_request(a.spec_requests(), owner, sequence_id) {
        r == Err::<u64, PoolError>(PoolError::UnknownRequest) && b == a
    } else if q.state != RequestState::Pending {
        r == Err::<u64, PoolError>(PoolError::InvalidState) && b == a
    } else if p.vault_tokens < q.token_amount_reserved {
        r == Err::<u64, PoolError>(PoolError::InsufficientVaultBalance) && b == a
    } else {
        &&& r == Ok::<u64, PoolError>(q.token_amount_reserved)
        &&& b.spec_pool() == StakePool {
            shares_bonded: p.shares_bonded,
            shares_unbonded: (p.shares_unbonded - q.shares_burned) as u64,
            vault_tokens: (p.vault_tokens - q.token_amount_reserved) as u64,
        }
        &&& b.spec_accounts() == a.spec_accounts()
        &&& b.spec_requests() == mark(a.spec_requests(), owner, sequence_id, RequestState::Withdrawn)
        &&& b.spec_next_id() == a.spec_next_id()
    }
}

proof fn lemma_credit_at(accounts: Seq<StakeAccount>, i: int, delta: int)
    requires
        owners_unique(accounts),
        0 <= i < accounts.len(),
        0 <= accounts[i].bonded_shares + delta <= u64::MAX,
    ensures
        account_of(accounts, accounts[i].owner) == accounts[i],
        credit(accounts, accounts[i].owner, delta) == accounts.update(
            i,
            StakeAccount {
                owner: accounts[i].owner,
                bonded_shares: (accounts[i].bonded_shares + delta) as u64,
            },
        ),
        owners_unique(credit(accounts, accounts[i].owner, delta)),
        forall|o: u64|
            has_account(credit(accounts, accounts[i].owner, delta), o) == has_account(accounts, o),
        seq_sum(bonded_amounts(credit(accounts, accounts[i].owner, delta))) == seq_sum(
            bonded_amounts(accounts),
        ) + delta,
{
    let owner = accounts[i].owner;
    let c = credit(accounts, owner, delta);
    let a2 = StakeAccount { owner, bonded_shares: (accounts[i].bonded_shares + delta) as u64 };
    assert(c =~= accounts.update(i, a2));
    assert(bonded_amounts(c) =~= bonded_amounts(accounts).update(i, a2.bonded_shares as int));
    lemma_sum_update(bonded_amounts(accounts), i, a2.bonded_shares as int);
    assert forall|o: u64| has_account(c, o) == has_account(accounts, o) by {
        if has_account(c, o) {
            let j = choose|j: int| 0 <= j < c.len() && c[j].owner == o;
            assert(accounts[j].owner == o);
        }
        if has_account(accounts, o) {
            let j = choose|j: int| 0 <= j < accounts.len() && accounts[j].owner == o;
            assert(c[j].owner == o);
        }
    }
}

proof fn lemma_account_within_bonded(accounts: Seq<StakeAccount>, i: int)
    requires
        0 <= i < accounts.len(),
    ensures
        accounts[i].bonded_shares <= seq_sum(bonded_amounts(accounts)),
{
    lemma_sum_bounds_element(bonded_amounts(accounts), i);
}

proof fn lemma_mark_at(requests: Seq<UnbondingRequest>, i: int, state: RequestState)
    requires
        keys_unique(requests),
        0 <= i < requests.len(),
        requests[i].state == RequestState::Pending,
        state != RequestState::Pending,
    ensures
        request_of(requests, requests[i].owner, requests[i].sequence_id) == requests[i],
        requests[i].shares_burned <= seq_sum(pending_amounts(requests)),
        mark(requests, requests[i].owner, requests[i].sequence_id, state) == requests.update(
            i,
            UnbondingRequest {
                owner: requests[i].owner,
                sequence_id: requests[i].sequence_id,
                shares_burned: requests[i].shares_burned,
                token_amount_reserved: requests[i].token_amount_reserved,
                state,
            },
        ),
        seq_sum(pending_amounts(mark(requests, requests[i].owner, requests[i].sequence_id, state)))
            == seq_sum(pending_amounts(requests)) - requests[i].shares_burned,
{
    let q = requests[i];
    let m = mark(requests, q.owner, q.sequence_id, state);
    let q2 = UnbondingRequest {
        owner: q.owner,
        sequence_id: q.sequence_id,
        shares_burned: q.shares_burned,
        token_amount_reserved: q.token_amount_reserved,
        state,
    };
    assert(m =~= requests.update(i, q2));
    assert(pending_amounts(m) =~= pending_amounts(requests).update(i, 0));
    lemma_sum_update(pending_amounts(requests), i, 0);
    lemma_sum_bounds_element(pending_amounts(requests), i);
}

impl StakeLedger {
    /// The pool this ledger keeps.
    pub closed spec fn spec_pool(&self) -> StakePool {
        self.pool
    }

    /// The stake accounts, in the order they were opened.
    pub closed spec fn spec_accounts(&self) -> Seq<StakeAccount> {
        self.accounts@
    }

    /// Every request made, in the order it was made.
    pub closed spec fn spec_requests(&self) -> Seq<UnbondingRequest> {
        self.requests@
    }

    /// The counter of fresh sequence ids.
    pub closed spec fn spec_next_id(&self) -> int {
        self.next_sequence_id as int
    }

    /// The ledger is consistent: one account per owner, one request per key,
    /// every sequence id used lies below the counter, every request belongs
    /// to an account, the bonded shares are those of the accounts and the
    /// unbonded shares those of the pending requests.
    pub open spec fn wf(&self) -> bool {
        let accounts = self.spec_accounts();
        let requests = self.spec_requests();
        &&& self.spec_pool().wf()
        &&& owners_unique(accounts)
        &&& keys_unique(requests)
        &&& 0 <= self.spec_next_id() <= SEQUENCE_ID_LIMIT
        &&& forall|i: int|
            #![trigger requests[i]]
            0 <= i < requests.len() ==> {
                &&& requests[i].sequence_id < self.spec_next_id()
                &&& has_account(accounts, requests[i].owner)
            }
        &&& seq_sum(bonded_amounts(accounts)) == self.spec_pool().shares_bonded
        &&& seq_sum(pending_amounts(requests)) == self.spec_pool().shares_unbonded
    }

    /// An empty pool with no accounts and no requests.
    pub fn new() -> (r: StakeLedger)
        ensures
            r.wf(),
            r.spec_pool() == (StakePool { shares_bonded: 0, shares_unbonded: 0, vault_tokens: 0 }),
            r.spec_accounts() == Seq::<StakeAccount>::empty(),
            r.spec_requests() == Seq::<UnbondingRequest>::empty(),
            r.spec_next_id() == 0,
    {
        let r = StakeLedger {
            pool: StakePool { shares_bonded: 0, shares_unbonded: 0, vault_tokens: 0 },
            accounts: Vec::new(),
            requests: Vec::new(),
            next_sequence_id: 0,
        };
        assert(bonded_amounts(r.accounts@) =~= Seq::<int>::empty());
        assert(pending_amounts(r.requests@) =~= Seq::<int>::empty());
        r
    }

    fn find_account(&self, owner: u64) -> (r: Option<usize>)
        ensures
            match r {
                Some(i) => i < self.accounts@.len() && self.accounts@[i as int].owner == owner,
                None => !has_account(self.accounts@, owner),
            },
    {
        let mut i: usize = 0;
        while i < self.accounts.len()
            invariant
                i <= self.accounts@.len(),
                forall|j: int| 0 <= j < i ==> self.accounts@[j].owner != owner,
            decreases self.accounts@.len() - i,
        {
            if self.accounts[i].owner == owner {
                return Some(i);
            }
            i = i + 1;
        }
        None
    }

    fn find_request(&self, owner: u64, sequence_id: u32) -> (r: Option<usize>)
        ensures
            match r {
                Some(i) => i < self.requests@.len() && is_key(self.requests@[i as int], owner, sequence_id),
                None => !has_request(self.requests@, owner, sequence_id),
            },
    {
        let mut i: usize = 0;
        while i < self.requests.len()
            invariant
                i <= self.requests@.len(),
                forall|j: int| 0 <= j < i ==> !is_key(self.requests@[j], owner, sequence_id),
            decreases self.requests@.len() - i,
        {
            let q = self.requests[i];
            if q.owner == owner && q.sequence_id == sequence_id {
                return Some(i);
            }
            i = i + 1;
        }
        None
    }

    /// Opens an empty stake account for `owner`.
    pub fn open_account(&mut self, owner: u64) -> (r: Result<(), PoolError>)
        requires
            old(self).wf(),
        ensures
            final(self).wf(),
            open_account_post(*old(self), *final(self), owner, r),
    {
        if self.find_account(owner).is_some() {
            return Err(PoolError::DuplicateAccount);
        }
        let ghost accounts0 = self.accounts@;
        let a = StakeAccount { owner, bonded_shares: 0 };
        self.accounts.push(a);
        proof {
            assert(bonded_amounts(self.accounts@) =~= bonded_amounts(accounts0).push(0));
            lemma_sum_push(bonded_amounts(accounts0), 0);
            assert forall|o: u64| has_account(accounts0, o) implies has_account(self.accounts@, o) by {
                let j = choose|j: int| 0 <= j < accounts0.len() && accounts0[j].owner == o;
                assert(self.accounts@[j].owner == o);
            }
        }
        Ok(())
    }

    /// Deposits `tokens` for `owner`: mints the shares they buy at the
    /// current rate to the owner's account and returns that count.
    pub fn deposit(&mut self, owner: u64, tokens: u64) -> (r: Result<u64, PoolError>)
        requires
            old(self).wf(),
        ensures
            final(self).wf(),
            deposit_post(*old(self), *final(self), owner, tokens, r),
    {
        let i = match self.find_account(owner) {
            Some(i) => i,
            None => return Err(PoolError::UnknownAccount),
        };
        let minted = match shares_for_tokens(&self.pool, tokens) {
            Ok(m) => m,
            Err(e) => return Err(e),
        };
        if minted > u64::MAX - self.pool.total_shares() || tokens > u64::MAX - self.pool.vault_tokens {
            return Err(PoolError::Overflow);
        }
        let a = self.accounts[i];
        proof {
            lemma_account_within_bonded(self.accounts@, i as int);
            lemma_credit_at(self.accounts@, i as int, minted as int);
        }
        self.accounts.set(i, StakeAccount { owner, bonded_shares: a.bonded_shares + minted });
        self.pool = StakePool {
            shares_bonded: self.pool.shares_bonded + minted,
            shares_unbonded: self.pool.shares_unbonded,
            vault_tokens: self.pool.vault_tokens + tokens,
        };
        Ok(minted)
    }

    /// Adds `amount` tokens to the vault without minting shares.
    pub fn inject_tokens(&mut self, amount: u64) -> (r: Result<(), PoolError>)
        requires
            old(self).wf(),
        ensures
            final(self).wf(),
            inject_post(*old(self), *final(self), amount, r),
    {
        if amount > u64::MAX - self.pool.vault_tokens {
            return Err(PoolError::Overflow);
        }
        self.pool = StakePool {
            shares_bonded: self.pool.shares_bonded,
            shares_unbonded: self.pool.shares_unbonded,
            vault_tokens: self.pool.vault_tokens + amount,
        };
        Ok(())
    }

    /// Unbonds `amount` (in shares or in tokens) of `owner`'s bonded shares
    /// under the key `(owner, sequence_id)`: the shares are burned from the
    /// account into the pool's unbonded supply and the tokens they are worth
    /// at the current rate are reserved for a later withdrawal.
    pub fn request_unbond(&mut self, owner: u64, sequence_id: u32, amount: Amount) -> (r: Result<
        UnbondingRequest,
        PoolError,
    >)
        requires
            old(self).wf(),
        ensures
            final(self).wf(),
            request_unbond_post(*old(self), *final(self), owner, sequence_id, amount, r),
    {
        let i = match self.find_account(owner) {
            Some(i) => i,
            None => return Err(PoolError::UnknownAccount),
        };
        if self.find_request(owner, sequence_id).is_some() {
            return Err(PoolError::DuplicateRequestKey);
        }
        let a = self.accounts[i];
        proof {
            lemma_credit_at(self.accounts@, i as int, 0);
        }
        // A share amount is held against the account before it is priced.
        if amount.kind == AmountKind::Shares && a.bonded_shares < amount.value {
            return Err(PoolError::InsufficientShares);
        }
        let full = match convert_amount(&self.pool, amount) {
            Ok(f) => f,
            Err(e) => return Err(e),
        };
        if a.bonded_shares < full.shares {
            return Err(PoolError::InsufficientShares);
        }
        let ghost requests0 = self.requests@;
        let ghost accounts0 = self.accounts@;
        proof {
            lemma_account_within_bonded(self.accounts@, i as int);
            lemma_credit_at(self.accounts@, i as int, -full.shares);
        }
        self.accounts.set(i, StakeAccount { owner, bonded_shares: a.bonded_shares - full.shares });
        self.pool = StakePool {
            shares_bonded: self.pool.shares_bonded - full.shares,
            shares_unbonded: self.pool.shares_unbonded + full.shares,
            vault_tokens: self.pool.vault_tokens,
        };
        let q = UnbondingRequest {
            owner,
            sequence_id,
            shares_burned: full.shares,
            token_amount_reserved: full.tokens,
            state: RequestState::Pending,
        };
        self.requests.push(q);
        if (sequence_id as u64) + 1 > self.next_sequence_id {
            self.next_sequence_id = (sequence_id as u64) + 1;
        }
        proof {
            assert(pending_amounts(self.requests@) =~= pending_amounts(requests0).push(
                full.shares as int,
            ));
            lemma_sum_push(pending_amounts(requests0), full.shares as int);
            assert forall|k: int| 0 <= k < self.requests@.len() implies has_account(
                self.accounts@,
                #[trigger] self.requests@[k].owner,
            ) by {
                if k < requests0.len() {
                    assert(has_account(accounts0, requests0[k].owner));
                } else {
                    assert(self.accounts@[i as int].owner == owner);
                }
            }
        }
        Ok(q)
    }

    /// Cancels the pending request `(owner, sequence_id)`: its shares go
    /// back to the owner's bonded shares and its reservation lapses.
    pub fn cancel_unbond(&mut self, owner: u64, sequence_id: u32) -> (r: Result<(), PoolError>)
        requires
            old(self).wf(),
        ensures
            final(self).wf(),
            cancel_unbond_post(*old(self), *final(self), owner, sequence_id, r),
    {
        let k = match self.find_request(owner, sequence_id) {
            Some(k) => k,
            None => return Err(PoolError::UnknownRequest),
        };
        let q = self.requests[k];
        if q.state != RequestState::Pending {
            proof {
                let j = choose|j: int|
                    0 <= j < self.requests@.len() && is_key(self.requests@[j], owner, sequence_id);
                assert(j == k);
            }
            return Err(PoolError::InvalidState);
        }
        proof {
            lemma_mark_at(self.requests@, k as int, RequestState::Cancelled);
            assert(has_account(self.accounts@, self.requests@[k as int].owner));
        }
        let i = match self.find_account(owner) {
            Some(i) => i,
            // Every request belongs to an account.
            None => {
                proof {
                    assert(false);
                }
                return Err(PoolError::UnknownAccount);
            },
        };
        let a = self.accounts[i];
        let ghost accounts0 = self.accounts@;
        let ghost requests0 = self.requests@;
        proof {
            lemma_account_within_bonded(self.accounts@, i as int);
            lemma_credit_at(self.accounts@, i as int, q.shares_burned as int);
        }
        self.accounts.set(i, StakeAccount { owner, bonded_shares: a.bonded_shares + q.shares_burned });
        self.pool = StakePool {
            shares_bonded: self.pool.shares_bonded + q.shares_burned,
            shares_unbonded: self.pool.shares_unbonded - q.shares_burned,
            vault_tokens: self.pool.vault_tokens,
        };
        self.requests.set(
            k,
            UnbondingRequest {
                owner: q.owner,
                sequence_id: q.sequence_id,
                shares_burned: q.shares_burned,
                token_amount_reserved: q.token_amount_reserved,
                state: RequestState::Cancelled,
            },
        );
        proof {
            assert forall|m: int| 0 <= m < self.requests@.len() implies has_account(
                self.accounts@,
                #[trigger] self.requests@[m].owner,
            ) by {
                assert(self.requests@[m].owner == requests0[m].owner);
                assert(has_account(accounts0, requests0[m].owner));
            }
        }
        Ok(())
    }

    /// Withdraws the pending request `(owner, sequence_id)`: its reserved
    /// tokens leave the vault and are returned, its shares leave the supply.
    pub fn withdraw(&mut self, owner: u64, sequence_id: u32) -> (r: Result<u64, PoolError>)
        requires
            old(self).wf(),
        ensures
            final(self).wf(),
            withdraw_post(*old(self), *final(self), owner, sequence_id, r),
    {
        let k = match self.find_request(owner, sequence_id) {
            Some(k) => k,
            None => return Err(PoolError::UnknownRequest),
        };
        let q = self.requests[k];
        proof {
            let j = choose|j: int|
                0 <= j < self.requests@.len() && is_key(self.requests@[j], owner, sequence_id);
            assert(j == k);
        }
        if q.state != RequestState::Pending {
            return Err(PoolError::InvalidState);
        }
        if self.pool.vault_tokens < q.token_amount_reserved {
            return Err(PoolError::InsufficientVaultBalance);
        }
        let ghost requests0 = self.requests@;
        proof {
            lemma_mark_at(self.requests@, k as int, RequestState::Withdrawn);
        }
        self.pool = StakePool {
            shares_bonded: self.pool.shares_bonded,
            shares_unbonded: self.pool.shares_unbonded - q.shares_burned,
            vault_tokens: self.pool.vault_tokens - q.token_amount_reserved,
        };
        self.requests.set(
            k,
            UnbondingRequest {
                owner: q.owner,
                sequence_id: q.sequence_id,
                shares_burned: q.shares_burned,
                token_amount_reserved: q.token_amount_reserved,
                state: RequestState::Withdrawn,
            },
        );
        proof {
            assert forall|m: int| 0 <= m < self.requests@.len() implies has_account(
                self.accounts@,
                #[trigger] self.requests@[m].owner,
            ) by {
                assert(self.requests@[m].owner == requests0[m].owner);
            }
        }
        Ok(q.token_amount_reserved)
    }
    /// The pool's current state.
    pub fn pool(&self) -> (r: StakePool)
        ensures
            r == self.spec_pool(),
    {
        self.pool
    }

    /// The sequence id that no request has used yet; every id below it may
    /// have been used.
    pub fn next_sequence_id(&self) -> (r: u64)
        ensures
            r == self.spec_next_id(),
    {
        self.next_sequence_id
    }

    /// The bonded shares of `owner`, or `None` without an account.
    pub fn account_shares(&self, owner: u64) -> (r: Option<u64>)
        requires
            self.wf(),
        ensures
            r is Some <==> has_account(self.spec_accounts(), owner),
            r matches Some(s) ==> s == account_of(self.spec_accounts(), owner).bonded_shares,
    {
        match self.find_account(owner) {
            Some(i) => {
                proof {
                    lemma_credit_at(self.accounts@, i as int, 0);
                }
                Some(self.accounts[i].bonded_shares)
            },
            None => None,
        }
    }

    /// The request keyed by `owner` and `sequence_id`, or `None`.
    pub fn request(&self, owner: u64, sequence_id: u32) -> (r: Option<UnbondingRequest>)
        requires
            self.wf(),
        ensures
            r is Some <==> has_request(self.spec_requests(), owner, sequence_id),
            r matches Some(q) ==> q == request_of(self.spec_requests(), owner, sequence_id),
    {
        match self.find_request(owner, sequence_id) {
            Some(k) => {
                proof {
                    let j = choose|j: int|
                        0 <= j < self.requests@.len() && is_key(self.requests@[j], owner, sequence_id);
                    assert(j == k);
                }
                Some(self.requests[k])
            },
            None => None,
        }
    }
}


/// A request is withdrawn at most once: once a withdrawal of it has
/// succeeded, withdrawing it again fails with `InvalidState`, and so does
/// cancelling it.
pub proof fn lemma_withdrawn_is_terminal(
    l0: StakeLedger,
    l1: StakeLedger,
    l2: StakeLedger,
    l3: StakeLedger,
    owner: u64,
    sequence_id: u32,
    tokens: u64,
    again: Result<u64, PoolError>,
    cancel: Result<(), PoolError>,
)
    requires
        withdraw_post(l0, l1, owner, sequence_id, Ok(tokens)),
        withdraw_post(l1, l2, owner, sequence_id, again),
        cancel_unbond_post(l1, l3, owner, sequence_id, cancel),
    ensures
        again == Err::<u64, PoolError>(PoolError::InvalidState),
        cancel == Err::<(), PoolError>(PoolError::InvalidState),
{
    let r0 = l0.spec_requests();
    let r1 = l1.spec_requests();
    let j = choose|j: int| 0 <= j < r0.len() && is_key(r0[j], owner, sequence_id);
    assert(is_key(r1[j], owner, sequence_id));
    let k = choose|k: int| 0 <= k < r1.len() && is_key(r1[k], owner, sequence_id);
    assert(r1[k].state == RequestState::Withdrawn);
}

/// A sequence id is used once per owner: once `request_unbond` has
/// succeeded under a key, a second request under the same key fails with
/// `DuplicateRequestKey`.
pub proof fn lemma_request_key_used_once(
    l0: StakeLedger,
    l1: StakeLedger,
    l2: StakeLedger,
    owner: u64,
    sequence_id: u32,
    first: Amount,
    second: Amount,
    made: UnbondingRequest,
    r: Result<UnbondingRequest, PoolError>,
)
    requires
        request_unbond_post(l0, l1, owner, sequence_id, first, Ok(made)),
        request_unbond_post(l1, l2, owner, sequence_id, second, r),
    ensures
        r == Err::<UnbondingRequest, PoolError>(PoolError::DuplicateRequestKey),
{
    let a0 = l0.spec_accounts();
    let r1 = l1.spec_requests();
    let i = choose|i: int| 0 <= i < a0.len() && a0[i].owner == owner;
    assert(l1.spec_accounts()[i].owner == owner);
    assert(is_key(r1[r1.len() - 1], owner, sequence_id));
}

/// A withdrawal never takes more than the vault holds: the tokens it
/// releases are at most the vault's balance before it, and the vault falls
/// by exactly that amount.
pub proof fn lemma_withdraw_within_vault(
    l0: StakeLedger,
    l1: StakeLedger,
    owner: u64,
    sequence_id: u32,
    tokens: u64,
)
    requires
        withdraw_post(l0, l1, owner, sequence_id, Ok(tokens)),
    ensures
        tokens <= l0.spec_pool().vault_tokens,
        l1.spec_pool().vault_tokens == l0.spec_pool().vault_tokens - tokens,
{
}

/// An account never holds more bonded shares than the pool has bonded.
pub proof fn lemma_account_within_pool(l: StakeLedger, owner: u64)
    requires
        l.wf(),
        has_account(l.spec_accounts(), owner),
    ensures
        account_of(l.spec_accounts(), owner).bonded_shares <= l.spec_pool().shares_bonded,
{
    let accounts = l.spec_accounts();
    let i = choose|i: int| 0 <= i < accounts.len() && accounts[i].owner == owner;
    lemma_credit_at(accounts, i, 0);
    lemma_account_within_bonded(accounts, i);
}

} // verus!
