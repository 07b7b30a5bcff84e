//! Proof-of-capacity plot generation for bc4py: the hash chains that make a
//! plot, the address decoding that seeds them, and the on-disk layouts that
//! plot files are converted and joined into.

pub mod bytes;
pub mod chain;
pub mod hashing;
pub mod joiner;
pub mod layout;
pub mod names;
pub mod node;
pub mod pochash;
pub mod prompt;
pub mod sha_plot;
pub mod text;
pub mod utils;

pub use sha_plot::{generator, HASH_LENGTH, HASH_LOOP_COUNT, SEED_LENGTH};
