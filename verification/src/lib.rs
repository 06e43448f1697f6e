//! A bounded, block-based FIFO ring buffer.
//!
//! The ring's storage is split into a small number of equal-sized blocks;
//! producers and consumers synchronize block by block through four packed
//! cursors per block plus a global head and tail cursor. Every cursor packs a
//! slot index in its low bits and a lap version in its high bits.
//!
//! The queue here is verified for one owner at a time: `push` and `pop`
//! take `&mut self`, and every cursor step of the block protocol is proved
//! against the ring's mathematical view, a `Seq` of the queued elements.

pub mod bbring;
pub mod cursor;
pub mod laws;

pub use bbring::RingBuffer;
