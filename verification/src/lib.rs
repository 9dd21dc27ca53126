//! A minimal fungible-asset ledger.
//!
//! Any account may issue a new class of fungible units that it initially owns
//! in full, transfer units of a class to another account, and destroy the
//! units it holds. The ledger maintains, and the proofs here guarantee, that
//! for every asset class the recorded total supply always equals the sum of
//! all holder balances, that balances never wrap, and that a rejected
//! operation leaves the ledger exactly as it was.

pub mod event;
pub mod laws;
pub mod ledger;
