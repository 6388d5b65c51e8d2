//! The rules of an image preprocessing service: the wire framing and command
//! grammar of its local channel, the two-tier cache of encoded bitmaps, the image
//! codec it drives, and the splitting of batches across a fixed pool of workers.
//!
//! The library decides, and its caller does the input and output. It decodes and
//! encodes images and asks the machine how much memory is available; it reads
//! and writes no file, no socket and no channel, and takes no lock. Each function
//! takes what its caller has read, and returns what the caller must fetch, write,
//! send or delete next.

pub mod batch;
pub mod bytes;
pub mod cache;
pub mod codec;
pub mod command;
pub mod config;
pub mod error;
pub mod framing;
pub mod memory;
pub mod pipeline;
pub mod reader;
pub mod session;
