//! The options of a scan, checked before any work starts.

use vstd::prelude::*;
use crate::size_filter::{filter_of, parse_size_filter, SizeFilter, SizeFilterError};

verus! {

/// What is done with symbolic links.
#[derive(Clone, Copy, Debug, PartialEq, Eq, Structural)]
pub enum SymlinkPolicy {
    /// Links are followed, but for those that point at a root.
    Follow,
    /// Links are left out.
    Ignore,
}

/// The options of a scan.
#[derive(Clone, Copy, Debug, PartialEq, Eq, Structural)]
pub struct ScanConfig {
    /// How many files are scanned between two saves of the cache.
    pub checkpoint: usize,
    /// How many workers scan, where the number is set.
    pub pool_size: Option<usize>,
    /// Whether the cache is used.
    pub resume_enabled: bool,
    /// Whether files of a size that no other file has are passed over.
    pub skip_unique_size: bool,
    pub symlink_policy: SymlinkPolicy,
    /// The sizes of the files that are left out.
    pub size_filter: Option<SizeFilter>,
}

/// Why the options were rejected.
#[derive(Clone, Copy, Debug, PartialEq, Eq, Structural)]
pub enum ConfigError {
    /// The number of workers is set to 0.
    ZeroPoolSize,
    /// The size-filter expression denotes no filter.
    InvalidSizeFilter(SizeFilterError),
    /// The number of files between two saves is 0.
    ZeroCheckpoint,
}

impl ScanConfig {
    /// The options hold what a scan can run with.
    pub open spec fn well_formed(self) -> bool {
        &&& self.checkpoint >= 1
        &&& self.pool_size matches Some(n) ==> n >= 1
        &&& self.size_filter matches Some(f) ==> f.well_formed()
    }
}

/// The filter that an optional expression denotes.
pub open spec fn optional_filter(expression: Option<&str>) -> Result<
    Option<SizeFilter>,
    SizeFilterError,
> {
    match expression {
        None => Ok(None),
        Some(e) => match filter_of(e@) {
            Ok(f) => Ok(Some(f)),
            Err(e) => Err(e),
        },
    }
}

/// The options that the given settings make, or the first reason to
/// reject them: the number of workers is judged first, then the
/// size-filter expression, then the checkpoint.
pub open spec fn configured(
    checkpoint: usize,
    pool_size: Option<usize>,
    resume_enabled: bool,
    skip_unique_size: bool,
    ignore_symlinks: bool,
    size_filter: Option<&str>,
) -> Result<ScanConfig, ConfigError> {
    if pool_size == Some(0usize) {
        Err(ConfigError::ZeroPoolSize)
    } else {
        match optional_filter(size_filter) {
            Err(e) => Err(ConfigError::InvalidSizeFilter(e)),
            Ok(filter) => if checkpoint == 0 {
                Err(ConfigError::ZeroCheckpoint)
            } else {
                Ok(
                    ScanConfig {
                        checkpoint,
                        pool_size,
                        resume_enabled,
                        skip_unique_size,
                        symlink_policy: if ignore_symlinks {
                            SymlinkPolicy::Ignore
                        } else {
                            SymlinkPolicy::Follow
                        },
                        size_filter: filter,
                    },
                )
            },
        }
    }
}

/// Checks the settings of a scan and makes its options.
pub fn configure(
    checkpoint: usize,
    pool_size: Option<usize>,
    resume_enabled: bool,
    skip_unique_size: bool,
    ignore_symlinks: bool,
    size_filter: Option<&str>,
) -> (r: Result<ScanConfig, ConfigError>)
    ensures
        r == configured(
            checkpoint,
            pool_size,
            resume_enabled,
            skip_unique_size,
            ignore_symlinks,
            size_filter,
        ),
        r matches Ok(c) ==> c.well_formed(),
{
    match pool_size {
        Some(n) => {
            if n == 0 {
                return Err(ConfigError::ZeroPoolSize);
            }
        },
        None => {},
    }
    let filter: Option<SizeFilter> = match size_filter {
        None => None,
        Some(e) => match parse_size_filter(e) {
            Ok(f) => Some(f),
            Err(e) => { return Err(ConfigError::InvalidSizeFilter(e)); },
        },
    };
    if checkpoint == 0 {
        return Err(ConfigError::ZeroCheckpoint);
    }
    Ok(
        ScanConfig {
            checkpoint,
            pool_size,
            resume_enabled,
            skip_unique_size,
            symlink_policy: if ignore_symlinks {
                SymlinkPolicy::Ignore
            } else {
                SymlinkPolicy::Follow
            },
            size_filter: filter,
        },
    )
}

} // verus!
