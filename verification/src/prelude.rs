//! The names that most users of the library need, in one place.

pub use crate::config::{Config, SplitMode};
pub use crate::error::ShamirError;
pub use crate::hsss::{AccessLevel, HierarchicalShare, Hsss, HsssBuilder};
pub use crate::shamir::{Dealer, ShamirShare, ShamirShareBuilder};
pub use crate::share::Share;
pub use crate::storage::{MemoryShareStore, ShareStore};
