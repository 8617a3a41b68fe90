use vstd::prelude::*;

use crate::conversion::{
    conversion_defined, lemma_shares_for_monotonic, shares_for, shares_for_tokens, total_shares,
    StakePool,
};
use crate::error::PoolError;

verus! {

/// The largest token amount whose share cost stays within `budget`:
/// `floor(T * S / V) <= budget` holds exactly when `T * S < (budget + 1) * V`.
pub open spec fn breakpoint(pool: StakePool, budget: int) -> int {
    ((budget + 1) * (pool.vault_tokens as int) - 1) / total_shares(pool)
}

/// `t` is the breakpoint for `budget`: it costs at most `budget` shares and
/// one token more costs more.
pub open spec fn is_breakpoint(pool: StakePool, budget: int, t: int) -> bool {
    shares_for(pool, t) <= budget && budget < shares_for(pool, t + 1)
}

/// What `find_breakpoint` returns.
pub open spec fn breakpoint_result(pool: StakePool, budget: int, min_tokens: int) -> Result<u64, PoolError> {
    if total_shares(pool) == 0 {
        Err(PoolError::EmptyPool)
    } else if pool.vault_tokens == 0 {
        Err(PoolError::EmptyVault)
    } else if breakpoint(pool, budget) < min_tokens {
        Err(PoolError::NoProfitableBreakpoint)
    } else if breakpoint(pool, budget) > u64::MAX {
        Err(PoolError::Overflow)
    } else {
        Ok(breakpoint(pool, budget) as u64)
    }
}

/// A deposit and an injection into the vault, with the tokens that can then
/// be redeemed for the deposit's shares and the gain over what was paid in.
#[derive(Clone, Copy, Debug, PartialEq, Eq, Structural)]
pub struct Candidate {
    pub deposit_amt: u64,
    pub transfer_amt: u64,
    pub max_redeemable: u64,
    pub profit: u64,
}

/// The amounts `start, start + 1, ..., end - 1`; empty when `end <= start`.
#[derive(Clone, Copy, Debug, PartialEq, Eq, Structural)]
pub struct AmountRange {
    pub start: u64,
    pub end: u64,
}

/// The pool as it stands after a deposit that mints `minted` shares and
/// brings `tokens_in` tokens into the vault, deposit and injection together.
pub open spec fn pool_after(pool: StakePool, minted: int, tokens_in: int) -> StakePool {
    StakePool {
        shares_bonded: (total_shares(pool) + minted) as u64,
        shares_unbonded: 0,
        vault_tokens: (pool.vault_tokens + tokens_in) as u64,
    }
}

/// What depositing `deposit_amt` and injecting `transfer_amt` would gain:
/// the breakpoint of the advanced pool for the shares the deposit minted,
/// when it lies above the amount paid in. `None` when the advanced pool
/// would not fit in 64 bits or nothing is gained. A deposit too small to mint
/// a single share is searched like any other.
pub open spec fn cell_outcome(pool: StakePool, deposit_amt: u64, transfer_amt: u64) -> Option<Candidate> {
    let minted = shares_for(pool, deposit_amt as int);
    let paid = deposit_amt + transfer_amt;
    if total_shares(pool) + minted > u64::MAX || pool.vault_tokens + paid > u64::MAX {
        None
    } else {
        match breakpoint_result(pool_after(pool, minted, paid), minted, paid) {
            Ok(t) => if t > paid {
                Some(
                    Candidate {
                        deposit_amt,
                        transfer_amt,
                        max_redeemable: t,
                        profit: (t - paid) as u64,
                    },
                )
            } else {
                None
            },
            Err(_) => None,
        }
    }
}

/// Keeps `best` unless `c` gains strictly more.
pub open spec fn better(best: Option<Candidate>, c: Option<Candidate>) -> Option<Candidate> {
    match c {
        None => best,
        Some(x) => match best {
            None => c,
            Some(y) => if x.profit > y.profit {
                c
            } else {
                best
            },
        },
    }
}

/// The first most profitable cell of one deposit amount over the injections
/// `t_start .. t_end`, in increasing order.
pub open spec fn best_in_row(pool: StakePool, deposit_amt: u64, t_start: int, t_end: int) -> Option<Candidate>
    decreases t_end - t_start,
{
    if t_end <= t_start {
        None
    } else {
        better(
            best_in_row(pool, deposit_amt, t_start, t_end - 1),
            cell_outcome(pool, deposit_amt, (t_end - 1) as u64),
        )
    }
}

/// The first most profitable cell over the deposits `d_start .. d_end` (outer,
/// increasing) and the injections of `transfers` (inner, increasing).
pub open spec fn best_in_grid(pool: StakePool, d_start: int, d_end: int, transfers: AmountRange) -> Option<Candidate>
    decreases d_end - d_start,
{
    if d_end <= d_start {
        None
    } else {
        better(
            best_in_grid(pool, d_start, d_end - 1, transfers),
            best_in_row(pool, (d_end - 1) as u64, transfers.start as int, transfers.end as int),
        )
    }
}

proof fn lemma_floor_div_below(x: int, v: int, k: int)
    requires
        v > 0,
        0 <= x < k * v,
    ensures
        x / v < k,
{
    vstd::arithmetic::div_mod::lemma_fundamental_div_mod(x, v);
    vstd::arithmetic::div_mod::lemma_mod_bound(x, v);
    let q = x / v;
    assert(q < k) by (nonlinear_arith)
        requires
            v > 0,
            v * q <= x,
            x < k * v,
    ;
}

proof fn lemma_floor_div_at_least(x: int, v: int, k: int)
    requires
        v > 0,
        x >= k * v,
    ensures
        x / v >= k,
{
    vstd::arithmetic::div_mod::lemma_fundamental_div_mod(x, v);
    vstd::arithmetic::div_mod::lemma_mod_bound(x, v);
    let q = x / v;
    assert(q >= k) by (nonlinear_arith)
        requires
            v > 0,
            x == v * q + x % v,
            x % v < v,
            x >= k * v,
    ;
}

/// The breakpoint is exact: it costs at most `budget` shares, one token
/// more costs more than `budget`, and so an amount costs at most `budget`
/// shares exactly when it does not exceed the breakpoint. The vault must
/// hold tokens: with shares outstanding and an empty vault no amount can be
/// priced, and `find_breakpoint` fails with `EmptyVault`.
pub proof fn lemma_breakpoint_exact(pool: StakePool, budget: int)
    requires
        total_shares(pool) > 0,
        pool.vault_tokens > 0,
        budget >= 0,
    ensures
        is_breakpoint(pool, budget, breakpoint(pool, budget)),
        breakpoint(pool, budget) >= 0,
        forall|t: int| 0 <= t ==> (shares_for(pool, t) <= budget <==> t <= breakpoint(pool, budget)),
{
    let s = total_shares(pool);
    let v = pool.vault_tokens as int;
    let x = (budget + 1) * v - 1;
    let t = breakpoint(pool, budget);
    assert(x >= 0) by (nonlinear_arith)
        requires
            budget >= 0,
            v > 0,
            x == (budget + 1) * v - 1,
    ;
    vstd::arithmetic::div_mod::lemma_fundamental_div_mod(x, s);
    vstd::arithmetic::div_mod::lemma_mod_bound(x, s);
    assert(t >= 0) by {
        vstd::arithmetic::div_mod::lemma_div_pos_is_pos(x, s);
    }
    assert(t * s <= x && (t + 1) * s > x) by (nonlinear_arith)
        requires
            x == s * t + x % s,
            0 <= x % s < s,
    ;
    lemma_floor_div_below(t * s, v, budget + 1);
    lemma_floor_div_at_least((t + 1) * s, v, budget + 1);
    assert forall|u: int| 0 <= u implies (shares_for(pool, u) <= budget <==> u <= t) by {
        if u <= t {
            lemma_shares_for_monotonic(pool, u, t);
        } else {
            lemma_shares_for_monotonic(pool, t + 1, u);
        }
    }
}

/// The largest token amount that costs at most `budget` shares of `pool`,
/// computed in closed form. Fails with `NoProfitableBreakpoint` when even
/// `min_tokens` costs more than `budget`.
pub fn find_breakpoint(pool: &StakePool, budget: u64, min_tokens: u64) -> (r: Result<u64, PoolError>)
    requires
        pool.wf(),
    ensures
        r == breakpoint_result(*pool, budget as int, min_tokens as int),
        total_shares(*pool) > 0 && pool.vault_tokens == 0 ==> r == Err::<u64, PoolError>(
            PoolError::EmptyVault,
        ),
        r matches Ok(t) ==> is_breakpoint(*pool, budget as int, t as int),
        total_shares(*pool) > 0 && pool.vault_tokens > 0 ==> (r == Err::<u64, PoolError>(
            PoolError::NoProfitableBreakpoint,
        ) <==> shares_for(*pool, min_tokens as int) > budget),
{
    let total = pool.total_shares();
    if total == 0 {
        return Err(PoolError::EmptyPool);
    }
    if pool.vault_tokens == 0 {
        return Err(PoolError::EmptyVault);
    }
    proof {
        lemma_breakpoint_exact(*pool, budget as int);
        assert(((budget as int) + 1) * (pool.vault_tokens as int) <= 0x1_0000_0000_0000_0000 * (
        u64::MAX as int)) by (nonlinear_arith)
            requires
                budget <= u64::MAX,
                pool.vault_tokens <= u64::MAX,
        ;
        assert(((budget as int) + 1) * (pool.vault_tokens as int) >= 1) by (nonlinear_arith)
            requires
                pool.vault_tokens >= 1,
                budget >= 0,
        ;
    }
    let x: u128 = (budget as u128 + 1) * (pool.vault_tokens as u128) - 1;
    let t: u128 = x / (total as u128);
    if t < min_tokens as u128 {
        Err(PoolError::NoProfitableBreakpoint)
    } else if t > u64::MAX as u128 {
        Err(PoolError::Overflow)
    } else {
        Ok(t as u64)
    }
}

/// What depositing `deposit_amt` and injecting `transfer_amt` into `pool`
/// would gain; `None` when nothing would.
pub fn evaluate_cell(pool: &StakePool, deposit_amt: u64, transfer_amt: u64) -> (r: Option<Candidate>)
    requires
        pool.wf(),
        conversion_defined(*pool),
    ensures
        r == cell_outcome(*pool, deposit_amt, transfer_amt),
{
    let minted = match shares_for_tokens(pool, deposit_amt) {
        Ok(s) => s,
        Err(_) => return None,
    };
    let total = pool.total_shares();
    if minted > u64::MAX - total {
        return None;
    }
    if (pool.vault_tokens as u128) + (deposit_amt as u128) + (transfer_amt as u128) > u64::MAX as u128 {
        return None;
    }
    let paid = deposit_amt + transfer_amt;
    let after = StakePool {
        shares_bonded: total + minted,
        shares_unbonded: 0,
        vault_tokens: pool.vault_tokens + paid,
    };
    assert(after == pool_after(*pool, minted as int, paid as int));
    match find_breakpoint(&after, minted, paid) {
        Ok(t) => if t > paid {
            Some(
                Candidate {
                    deposit_amt,
                    transfer_amt,
                    max_redeemable: t,
                    profit: t - paid,
                },
            )
        } else {
            None
        },
        Err(_) => None,
    }
}

proof fn lemma_better_assoc(a: Option<Candidate>, b: Option<Candidate>, c: Option<Candidate>)
    ensures
        better(better(a, b), c) == better(a, better(b, c)),
{
}

/// The first most profitable deposit / injection pair over the two ranges,
/// deposits in the outer loop and injections in the inner one, each in
/// increasing order; `None` when no pair gains anything.
pub fn search(pool: &StakePool, deposits: AmountRange, transfers: AmountRange) -> (r: Result<
    Option<Candidate>,
    PoolError,
>)
    requires
        pool.wf(),
    ensures
        !conversion_defined(*pool) ==> r == Err::<Option<Candidate>, PoolError>(
            PoolError::EmptyVault,
        ),
        conversion_defined(*pool) ==> r == Ok::<Option<Candidate>, PoolError>(
            best_in_grid(*pool, deposits.start as int, deposits.end as int, transfers),
        ),
{
    if pool.total_shares() != 0 && pool.vault_tokens == 0 {
        return Err(PoolError::EmptyVault);
    }
    let mut best: Option<Candidate> = None;
    let mut d: u64 = deposits.start;
    while d < deposits.end
        invariant
            pool.wf(),
            conversion_defined(*pool),
            deposits.start <= d,
            d <= deposits.end || d == deposits.start,
            best == best_in_grid(*pool, deposits.start as int, d as int, transfers),
        decreases deposits.end - d,
    {
        let ghost before = best;
        let mut t: u64 = transfers.start;
        while t < transfers.end
            invariant
                pool.wf(),
                conversion_defined(*pool),
                transfers.start <= t,
                t <= transfers.end || t == transfers.start,
                best == better(before, best_in_row(*pool, d, transfers.start as int, t as int)),
            decreases transfers.end - t,
        {
            let c = evaluate_cell(pool, d, t);
            proof {
                lemma_better_assoc(
                    before,
                    best_in_row(*pool, d, transfers.start as int, t as int),
                    c,
                );
            }
            best =
            match c {
                Some(x) => match best {
                    Some(y) => if x.profit > y.profit {
                        c
                    } else {
                        best
                    },
                    None => c,
                },
                None => best,
            };
            t = t + 1;
        }
        assert(best_in_row(*pool, d, transfers.start as int, t as int) == best_in_row(
            *pool,
            d,
            transfers.start as int,
            transfers.end as int,
        ));
        d = d + 1;
    }
    Ok(best)
}

} // verus!
