use vstd::prelude::*;

verus! {

/// Every way an accounting operation can fail. All failures are recoverable:
/// the operation reports the error and leaves every store unchanged.
#[derive(Clone, Copy, Debug, PartialEq, Eq, Structural)]
pub enum DposError {
    /// `register` was called for an account that already has a candidate record.
    AlreadyCandidate,
    /// The named account has no candidate record.
    NotCandidate,
    /// A delegation operation was given a zero amount.
    ZeroAmount,
    /// `undelegate` was called for a (delegator, candidate) pair with no record.
    NoSuchDelegation,
    /// `undelegate` asked for more than the recorded delegated amount.
    InsufficientDelegation,
    /// A first delegation would push the delegator past the configured cap.
    MaxDelegationsExceeded,
    /// A checked addition over the balance domain would overflow.
    ArithmeticOverflow,
    /// A checked subtraction over the balance domain would underflow.
    ArithmeticUnderflow,
    /// The custody ledger holds too little free balance for the requested hold.
    InsufficientBalance,
}

} // verus!
