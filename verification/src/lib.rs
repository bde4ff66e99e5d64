//! Byte-addressable, seekable access to one partition of a block-addressable
//! storage device, through a single cached block.

pub mod device;
pub mod stream;
