//! A fork-aware block builder for a BFT sequencer: a pool of pending transactions, one
//! builder state per fork kept in a registry, block assembly with a namespace table,
//! namespace proofs, the consensus event relay, and the store of signed state commitments.
pub mod block;
pub mod bytes;
pub mod env_vars;
pub mod laws;
pub mod ns_proof;
pub mod pool;
pub mod registry;
pub mod relay;
pub mod signer;
pub mod transaction;
