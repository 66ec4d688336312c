//! Shamir's Secret Sharing over GF(256): a secret is split into shares of
//! which any `threshold` reconstruct it exactly.
//!
//! The arithmetic, the splitting and the reconstruction, the streaming codec,
//! the hierarchical scheme and the refreshing of shares are verified: every
//! function carries a contract over a mathematical model, and the laws that
//! tie the functions together (a split reconstructs from any `threshold` of
//! its shares, a refresh keeps what is reconstructed, a stream reads back as
//! it was written) are proved in `laws` and `stream_laws` from Lagrange
//! interpolation over the field, which is proved in `interpolation`.
//!
//! What is taken on trust is gathered in `outside`: the hash, the compressor,
//! the random generator and the memory wiper of other crates.

pub mod config;
pub mod error;
pub mod finite_field;
pub mod hsss;
pub mod interpolation;
pub mod laws;
pub mod outside;
pub mod payload;
pub mod polynomial;
pub mod prelude;
pub mod shamir;
pub mod share;
pub mod sharing;
pub mod storage;
pub mod stream;
pub mod stream_laws;
pub mod text;

pub use config::{Config, SplitMode};
pub use error::ShamirError;
pub use finite_field::FiniteField;
pub use hsss::{AccessLevel, HierarchicalShare, Hsss, HsssBuilder};
pub use shamir::{Dealer, ShamirShare, ShamirShareBuilder};
pub use share::{Share, ShareView};
pub use storage::{MemoryShareStore, ShareStore};
