//! A decoder for the frames of FLAC audio, verified with Verus.
//!
//! A frame is read from a [`cursor::BitCursor`] by [`frame::decode_frame`],
//! which hands out one sequence of samples for each channel. What a frame
//! decodes to is defined over the bytes of the input by functions that exist
//! for proof only, and every decoding function is proved to compute exactly
//! that.

pub mod bits;
pub mod crc;
pub mod cursor;
pub mod error;
pub mod frame;
pub mod header;
pub mod metadata;
pub mod picture;
pub mod predict;
pub mod residual;
pub mod stereo;
pub mod stream_info;
pub mod subframe;
pub mod sync;
pub mod varint;
