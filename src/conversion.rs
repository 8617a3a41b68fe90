use vstd::prelude::*;

use crate::error::PoolError;

verus! {

/// The pool's share supply, split by bonding state, and the tokens that its
/// vault holds.
#[derive(Clone, Copy, Debug, PartialEq, Eq, Structural)]
pub struct StakePool {
    pub shares_bonded: u64,
    pub shares_unbonded: u64,
    pub vault_tokens: u64,
}

/// Whether an amount is given in tokens or in shares.
#[derive(Clone, Copy, Debug, PartialEq, Eq, Structural)]
pub enum AmountKind {
    Tokens,
    Shares,
}

/// An amount of tokens or of shares.
#[derive(Clone, Copy, Debug, PartialEq, Eq, Structural)]
pub struct Amount {
    pub kind: AmountKind,
    pub value: u64,
}

/// An amount given both ways: a count of shares and the tokens it stands for.
#[derive(Clone, Copy, Debug, PartialEq, Eq, Structural)]
pub struct FullAmount {
    pub shares: u64,
    pub tokens: u64,
}

/// All outstanding shares, bonded or not.
pub open spec fn total_shares(pool: StakePool) -> int {
    pool.shares_bonded + pool.shares_unbonded
}

/// Shares can be priced in tokens: either no share exists yet, or the vault
/// holds tokens.
pub open spec fn conversion_defined(pool: StakePool) -> bool {
    total_shares(pool) == 0 || pool.vault_tokens > 0
}

/// The shares that `tokens` buy, rounded down; one share per token while the
/// pool has no shares.
pub open spec fn shares_for(pool: StakePool, tokens: int) -> int {
    if total_shares(pool) == 0 {
        tokens
    } else {
        tokens * total_shares(pool) / (pool.vault_tokens as int)
    }
}

/// The tokens that `shares` are worth, rounded down.
pub open spec fn tokens_for(pool: StakePool, shares: int) -> int {
    shares * (pool.vault_tokens as int) / total_shares(pool)
}

/// What `shares_for_tokens` returns.
pub open spec fn shares_for_tokens_result(pool: StakePool, tokens: int) -> Result<u64, PoolError> {
    if !conversion_defined(pool) {
        Err(PoolError::EmptyVault)
    } else if shares_for(pool, tokens) > u64::MAX {
        Err(PoolError::Overflow)
    } else {
        Ok(shares_for(pool, tokens) as u64)
    }
}

/// What `tokens_for_shares` returns.
pub open spec fn tokens_for_shares_result(pool: StakePool, shares: int) -> Result<u64, PoolError> {
    if total_shares(pool) == 0 {
        Err(PoolError::EmptyPool)
    } else if tokens_for(pool, shares) > u64::MAX {
        Err(PoolError::Overflow)
    } else {
        Ok(tokens_for(pool, shares) as u64)
    }
}

/// What `convert_amount` returns: the given side kept, the other converted.
pub open spec fn convert_amount_result(pool: StakePool, amount: Amount) -> Result<FullAmount, PoolError> {
    match amount.kind {
        AmountKind::Tokens => match shares_for_tokens_result(pool, amount.value as int) {
            Ok(s) => Ok(FullAmount { shares: s, tokens: amount.value }),
            Err(e) => Err(e),
        },
        AmountKind::Shares => match tokens_for_shares_result(pool, amount.value as int) {
            Ok(t) => Ok(FullAmount { shares: amount.value, tokens: t }),
            Err(e) => Err(e),
        },
    }
}

impl StakePool {
    /// The share supply fits in 64 bits.
    pub open spec fn wf(self) -> bool {
        total_shares(self) <= u64::MAX
    }

    /// All outstanding shares, bonded or not.
    pub fn total_shares(&self) -> (r: u64)
        requires
            self.wf(),
        ensures
            r == total_shares(*self),
    {
        self.shares_bonded + self.shares_unbonded
    }
}

proof fn lemma_product_fits(a: u64, b: u64)
    ensures
        (a as int) * (b as int) <= u128::MAX,
{
    assert((a as int) * (b as int) <= (u64::MAX as int) * (u64::MAX as int)) by (nonlinear_arith);
}

/// The shares that `tokens` buy: `tokens * total_shares / vault_tokens`,
/// rounded down, with a 128-bit product; `tokens` itself while the pool has
/// no shares.
pub fn shares_for_tokens(pool: &StakePool, tokens: u64) -> (r: Result<u64, PoolError>)
    requires
        pool.wf(),
    ensures
        r == shares_for_tokens_result(*pool, tokens as int),
{
    let total = pool.total_shares();
    if total == 0 {
        return Ok(tokens);
    }
    if pool.vault_tokens == 0 {
        return Err(PoolError::EmptyVault);
    }
    proof {
        lemma_product_fits(tokens, total);
    }
    let q: u128 = (tokens as u128) * (total as u128) / (pool.vault_tokens as u128);
    if q > u64::MAX as u128 {
        Err(PoolError::Overflow)
    } else {
        Ok(q as u64)
    }
}

/// The tokens that `shares` are worth: `shares * vault_tokens / total_shares`,
/// rounded down, with a 128-bit product. Fails on a pool without shares.
pub fn tokens_for_shares(pool: &StakePool, shares: u64) -> (r: Result<u64, PoolError>)
    requires
        pool.wf(),
    ensures
        r == tokens_for_shares_result(*pool, shares as int),
{
    let total = pool.total_shares();
    if total == 0 {
        return Err(PoolError::EmptyPool);
    }
    proof {
        lemma_product_fits(shares, pool.vault_tokens);
    }
    let q: u128 = (shares as u128) * (pool.vault_tokens as u128) / (total as u128);
    if q > u64::MAX as u128 {
        Err(PoolError::Overflow)
    } else {
        Ok(q as u64)
    }
}

/// Gives an amount both in shares and in tokens: the side it was given in
/// is kept, the other is converted at the pool's current rate.
pub fn convert_amount(pool: &StakePool, amount: Amount) -> (r: Result<FullAmount, PoolError>)
    requires
        pool.wf(),
    ensures
        r == convert_amount_result(*pool, amount),
{
    match amount.kind {
        AmountKind::Tokens => match shares_for_tokens(pool, amount.value) {
            Ok(s) => Ok(FullAmount { shares: s, tokens: amount.value }),
            Err(e) => Err(e),
        },
        AmountKind::Shares => match tokens_for_shares(pool, amount.value) {
            Ok(t) => Ok(FullAmount { shares: amount.value, tokens: t }),
            Err(e) => Err(e),
        },
    }
}

proof fn lemma_floor_ratio_monotonic(a: int, b: int, m: int, d: int)
    requires
        0 <= a <= b,
        0 <= m,
        0 < d,
    ensures
        a * m / d <= b * m / d,
{
    assert(a * m <= b * m) by (nonlinear_arith)
        requires
            0 <= a <= b,
            0 <= m,
    ;
    vstd::arithmetic::div_mod::lemma_div_is_ordered(a * m, b * m, d);
}

/// The shares bought never fall as the tokens paid rise.
pub proof fn lemma_shares_for_monotonic(pool: StakePool, t1: int, t2: int)
    requires
        conversion_defined(pool),
        0 <= t1 <= t2,
    ensures
        shares_for(pool, t1) <= shares_for(pool, t2),
{
    if total_shares(pool) != 0 {
        lemma_floor_ratio_monotonic(t1, t2, total_shares(pool), pool.vault_tokens as int);
    }
}

/// The tokens that shares are worth never fall as the shares rise.
pub proof fn lemma_tokens_for_monotonic(pool: StakePool, s1: int, s2: int)
    requires
        total_shares(pool) > 0,
        0 <= s1 <= s2,
    ensures
        tokens_for(pool, s1) <= tokens_for(pool, s2),
{
    lemma_floor_ratio_monotonic(s1, s2, pool.vault_tokens as int, total_shares(pool));
}

} // verus!
