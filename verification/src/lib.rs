//! An optimistic-rollup core: a sequencer applies batches of transactions to
//! an account ledger, commits each batch as a deterministic state commitment,
//! and supports after-the-fact fraud proofs that replay history from genesis
//! and compare commitments.

pub mod addr;
pub mod tx;
pub mod state;
pub mod commitment;
pub mod rollup;
pub mod laws;
