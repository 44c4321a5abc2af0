//! Gorilla-style time-series chunks: timestamps are stored as deltas of
//! deltas, values as the XOR with the previous value, both packed bit by bit
//! into an append-only byte buffer.
//!
//! Values travel through this crate as their IEEE-754 bit patterns (`u64`),
//! so that every operation is exact and can be reasoned about.
//!
//! # Example
//!
//! ```
//! use chunkenc::chunk::{Appender, Chunk, Iterator as _, XORChunk};
//!
//! let mut chunk = XORChunk::new();
//! let mut appender = chunk.appender().unwrap();
//! appender.append(1_i64, 2.0_f64.to_bits()).unwrap();
//! appender.append(2_i64, 3.0_f64.to_bits()).unwrap();
//! appender.append(3_i64, 4.0_f64.to_bits()).unwrap();
//! drop(appender);
//!
//! let mut it = chunk.iterator();
//! while it.next().unwrap() {
//!     let (ts, bits) = it.at();
//!     println!("{} {}", ts, f64::from_bits(bits));
//! }
//! ```
//!
//! The modules: [`bits`] lays words and bytes out as bits; [`buffer`] is the
//! byte buffer of the `bytes` crate; [`bitstream`] writes and reads bits
//! over it; [`format`] says which bits a sample is and what a reader makes
//! of bits; [`chunk`] holds the chunk, its appender and its iterator;
//! [`roundtrip`] proves that what was appended is what is read.

pub mod bits;
pub mod bitstream;
pub mod buffer;
pub mod chunk;
pub mod error;
pub mod format;
mod helper;
pub mod roundtrip;
