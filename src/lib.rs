//! Meltwater: a stereo stream that regroups host blocks of any length into
//! fixed codec frames, hands each frame out for an encode/decode round trip,
//! and delivers the decoded samples back in the block lengths the host asks for.
//!
//! Samples are carried as the bit patterns of 32-bit floats (`f32::to_bits`):
//! this layer moves them and never looks at their value.

pub mod frame_stream;
pub mod util;

pub use frame_stream::{
    FrameRoundTrip, RoundTripError,
    total_latency, FrameStream, BUFFER_SIZE, FRAME_SIZE, INTERLEAVED_FRAME_SIZE,
    MAX_INPUT_BLOCK_SIZE,
};
pub use util::{deinterleave, interleave};
