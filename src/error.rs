use vstd::prelude::*;

verus! {

/// The ways in which an operation on the pool or the ledger fails.
#[derive(Clone, Copy, Debug, PartialEq, Eq, Structural)]
pub enum PoolError {
    /// A result or a running total does not fit in 64 bits.
    Overflow,
    /// The pool has no shares outstanding, so shares cannot be priced.
    EmptyPool,
    /// The pool has shares outstanding but no tokens in its vault.
    EmptyVault,
    /// The owner holds fewer bonded shares than the request needs.
    InsufficientShares,
    /// The vault holds fewer tokens than the request reserved.
    InsufficientVaultBalance,
    /// The request is no longer pending.
    InvalidState,
    /// A request with this owner and sequence id was already made.
    DuplicateRequestKey,
    /// The breakpoint lies below the smallest amount worth probing.
    NoProfitableBreakpoint,
    /// No stake account is open for this owner.
    UnknownAccount,
    /// A stake account is already open for this owner.
    DuplicateAccount,
    /// No request with this owner and sequence id exists.
    UnknownRequest,
    /// Every sequence id has been used.
    KeysExhausted,
}

} // verus!
