//! A share-based staking pool ledger and a search for the rounding windows
//! that its floor-rounded share/token conversion opens.
//!
//! - `conversion`: the pool state and its share <-> token conversion.
//! - `search`: the exact breakpoint of the conversion and the grid search
//!   for the most profitable deposit / injection pair.
//! - `ledger`: accounts, unbonding requests and the operations on them.
//! - `campaign`: rounds of search and commit against a ledger, then the
//!   withdrawal of every request made.
//! - `sums`: sums of integer sequences, which the ledger's share totals use.
use vstd::prelude::*;

pub mod campaign;
pub mod conversion;
pub mod error;
pub mod ledger;
pub mod search;
pub mod sums;
