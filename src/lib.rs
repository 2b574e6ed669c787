//! In-place mirroring of row-major, multi-channel pixel buffers.
//!
//! `layout` models a buffer as a function from (row, column, channel) to a
//! byte and holds the pixel exchange; `partition` splits an axis into worker
//! ranges; `image` holds the buffer, its bitmap framing and the flip
//! strategies; `laws` states how the strategies relate; `utils` reads the
//! little-endian header fields.
pub mod layout;
pub mod partition;
pub mod image;
pub mod laws;
pub mod utils;
