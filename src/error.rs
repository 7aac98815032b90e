use vstd::prelude::*;

verus! {

/// Every way an operation of the pool can fail.
#[derive(Clone, Copy, Debug, PartialEq, Eq, Structural)]
pub enum PoolError {
    NotInitialized,
    AlreadyInitialized,
    Unauthorized,
    InvalidAmount,
    NoDeposit,
    InsufficientBalance,
    TransferFailed,
    NoCommitment,
    InvalidReveal,
    EmptyPreimage,
    PeriodNotFinished,
    DrawAlreadyExecuted,
    EmptyPool,
}

} // verus!
