//! A no-loss prize pool: a deposit ledger, a commit-reveal randomness
//! protocol, a period state machine and a deposit-weighted draw.

pub mod commit;
pub mod digest;
pub mod error;
pub mod ledger;
pub mod pool;

pub use error::PoolError;
pub use ledger::UserDeposit;
pub use pool::{DrawResult, PoolConfig, PrizePool};
