//! Sample-rate conversion for streams of audio frames.
//!
//! A stream of frames at one rate is turned into the stream at another rate
//! that stands for the same waveform.  The ratio of the two rates is reduced
//! to lowest terms ([`ratio`]), a low-pass filter is designed for it
//! ([`filter`]), and each channel is run through a conversion engine that
//! keeps the exact read position and the samples still needed
//! ([`channel`], modelled in [`model`]).  A [`Resampler`] drives one engine
//! per channel over the frames that it pulls from a source [`Stream`]
//! ([`resampler`], [`frames`]).
//!
//! Samples are values of any copyable type.  The weighing of the samples of
//! one window is left to a kernel that the caller supplies; everything else
//! is done here, in whole numbers, and proved: which windows the kernel is
//! given and at which read positions, how many outputs a given input
//! supports, what is retained between calls, and that the result does not
//! depend on how the input is cut into calls.

pub mod channel;
pub mod error;
pub mod filter;
pub mod frames;
pub mod model;
pub mod ratio;
pub mod resampler;
pub mod stream;
pub mod surround;

pub use channel::{ChannelResampler, Processed};
pub use error::ConfigurationError;
pub use filter::FilterSpec;
pub use ratio::{gcd, simplify};
pub use resampler::{Progress, Resampler};
pub use stream::Stream;
pub use surround::{Channel, Surround};
