//! The facts a successful operation records, and the reasons one is rejected.

use vstd::prelude::*;

verus! {

/// A structured fact recorded for each successful operation, in the order the
/// operations committed. External observers consume these; the ledger only
/// decides what to record.
#[derive(Clone, Copy, Debug, PartialEq, Eq, Structural)]
pub enum Event {
    /// A new asset class was issued: `Issued(id, creator, total)`.
    Issued(u32, u64, u64),
    /// Units moved between holders: `Transferred(id, from, to, amount)`.
    Transferred(u32, u64, u64, u64),
    /// A holder destroyed its entire balance: `Destroyed(id, holder, amount)`.
    Destroyed(u32, u64, u64),
}

/// Why an operation was rejected. Every rejection is detected before any
/// mutation, so a rejected operation has no effect at all.
#[derive(Clone, Copy, Debug, PartialEq, Eq, Structural)]
pub enum LedgerError {
    /// A transfer of zero units is rejected rather than silently accepted.
    ZeroAmount,
    /// The caller holds fewer units than the transfer asks to move.
    InsufficientBalance,
    /// The caller holds nothing of the asset it asked to destroy.
    ZeroBalance,
    /// Every asset id has been allocated; no further class can be issued.
    IdSpaceExhausted,
}

} // verus!
