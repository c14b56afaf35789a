//! Errors reported when a resampler is configured.

use vstd::prelude::*;

verus! {

/// Why a resampler could not be set up.
///
/// These conditions are detected once, at construction; nothing that runs
/// afterwards can fail with them.
#[derive(Debug, Clone, Copy, PartialEq, Eq, Structural)]
pub enum ConfigurationError {
    /// The source or the destination sample rate is zero, so the ratio
    /// between them is undefined.
    ZeroRate,
    /// The stream has no channels.
    ZeroChannels,
}

} // verus!
