//! A multi-way tree whose per-level branching factor is driven by a fixed
//! digit sequence. The library builds the tree level by level, enumerates it
//! breadth-first, persists the ownership structure to a byte stream, and
//! reconstructs every parent back-reference after a load.
pub mod codec;
pub mod generate;
pub mod node;
pub mod relink;
pub mod traverse;

pub use codec::DecodeError;
pub use generate::pi_digits;
pub use node::{Node, Tree};
