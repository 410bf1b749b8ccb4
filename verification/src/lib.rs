//! A partial sparse-Merkle-tree state backend.
//!
//! Given a compact proof covering the account records a transaction touches,
//! the library reconstructs the relevant slice of a height-H account tree,
//! applies bounded mutations to account fields (balance, nonce), and
//! recomputes the Merkle roots implied by the mutated slice without ever
//! materializing the full tree.

pub mod chunk;
pub mod error;
pub mod u264;
pub mod hashing;
pub mod index;
pub mod flat;
pub mod codec;
pub mod partial;

pub use chunk::H256;
pub use error::Error;
pub use u264::U264;
pub use flat::{Backend, InMemoryBackend};
pub use partial::PartialBackend;
