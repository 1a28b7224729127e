//! The core of a pull-based audio pipeline: stream formats and read
//! outcomes, the frame layout that a generator fills, and the circular delay
//! line that an echo mixes through. Sample arithmetic is left to the caller,
//! who hands it in as a function; everything else is proved by Verus.

pub mod effects;
pub mod generators;
pub mod stream;

pub use crate::effects::echo::{ring_len, DelayLine};
pub use crate::generators::tone::Phase;
pub use crate::stream::{AudioFormat, ReadResult, StreamState};
