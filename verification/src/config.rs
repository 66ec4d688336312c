//! Options for splitting and reconstruction.

use crate::error::ShamirError;
use vstd::prelude::*;
use vstd::string::StringExecFns;

verus! {

/// How the data is processed.
#[derive(Debug, Clone, Copy, PartialEq, Eq, Structural)]
pub enum SplitMode {
    /// One piece after the other.
    Sequential,
    /// Several pieces at once.
    Parallel,
    /// Chunk by chunk from a stream.
    Streaming,
}

impl Default for SplitMode {
    fn default() -> (r: Self)
        ensures
            r == SplitMode::Sequential,
    {
        SplitMode::Sequential
    }
}

/// The chunk size used by default: one mebibyte.
pub const DEFAULT_CHUNK_SIZE: usize = 1048576;

/// Options for splitting and reconstruction.
#[derive(Debug, Clone)]
pub struct Config {
    /// How many bytes the streaming codec reads at a time; never zero in a valid configuration.
    pub chunk_size: usize,
    /// How the data is processed.
    pub mode: SplitMode,
    /// Whether the secret is compressed before it is split.
    pub compression: bool,
    /// Whether a hash of the secret travels with it.
    pub integrity_check: bool,
}

impl Default for Config {
    fn default() -> (r: Self)
        ensures
            r.chunk_size == DEFAULT_CHUNK_SIZE,
            r.mode == SplitMode::Sequential,
            !r.compression,
            r.integrity_check,
    {
        Config {
            chunk_size: DEFAULT_CHUNK_SIZE,
            mode: SplitMode::Sequential,
            compression: false,
            integrity_check: true,
        }
    }
}

impl Config {
    /// A configuration is valid when its chunk size is not zero.
    pub open spec fn is_valid(&self) -> bool {
        self.chunk_size != 0
    }

    /// The default configuration: chunks of one mebibyte, sequential, no
    /// compression, with integrity checking.
    pub fn new() -> (r: Self)
        ensures
            r.chunk_size == DEFAULT_CHUNK_SIZE,
            r.mode == SplitMode::Sequential,
            !r.compression,
            r.integrity_check,
            r.is_valid(),
    {
        Config {
            chunk_size: DEFAULT_CHUNK_SIZE,
            mode: SplitMode::Sequential,
            compression: false,
            integrity_check: true,
        }
    }

    /// The same configuration with another chunk size; a size of zero is refused.
    pub fn with_chunk_size(self, size: usize) -> (r: Result<Self, ShamirError>)
        ensures
            size == 0 ==> (r matches Err(ShamirError::InvalidConfig(msg)) && msg@
                == "Chunk size cannot be zero"@),
            size != 0 ==> (r matches Ok(c) && c.chunk_size == size && c.mode == self.mode
                && c.compression == self.compression && c.integrity_check
                == self.integrity_check),
    {
        if size == 0 {
            return Err(ShamirError::InvalidConfig(String::from_str("Chunk size cannot be zero")));
        }
        let mut config = self;
        config.chunk_size = size;
        Ok(config)
    }

    /// The same configuration with another processing mode.
    pub fn with_mode(self, mode: SplitMode) -> (r: Self)
        ensures
            r.mode == mode,
            r.chunk_size == self.chunk_size,
            r.compression == self.compression,
            r.integrity_check == self.integrity_check,
    {
        let mut config = self;
        config.mode = mode;
        config
    }

    /// The same configuration with compression switched on or off.
    pub fn with_compression(self, enabled: bool) -> (r: Self)
        ensures
            r.compression == enabled,
            r.chunk_size == self.chunk_size,
            r.mode == self.mode,
            r.integrity_check == self.integrity_check,
    {
        let mut config = self;
        config.compression = enabled;
        config
    }

    /// The same configuration with integrity checking switched on or off.
    pub fn with_integrity_check(self, enabled: bool) -> (r: Self)
        ensures
            r.integrity_check == enabled,
            r.chunk_size == self.chunk_size,
            r.mode == self.mode,
            r.compression == self.compression,
    {
        let mut config = self;
        config.integrity_check = enabled;
        config
    }

    /// Checks the configuration: the chunk size must not be zero.
    pub fn validate(&self) -> (r: Result<(), ShamirError>)
        ensures
            self.is_valid() ==> r is Ok,
            !self.is_valid() ==> (r matches Err(ShamirError::InvalidConfig(msg)) && msg@
                == "Chunk size cannot be zero"@),
    {
        if self.chunk_size == 0 {
            return Err(ShamirError::InvalidConfig(String::from_str("Chunk size cannot be zero")));
        }
        Ok(())
    }
}

} // verus!
