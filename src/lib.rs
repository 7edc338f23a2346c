//! Building blocks of a disk wiper: byte streams and block sources, a
//! reseeding stream-cipher generator, an XOR composer, the channel side of a
//! multi-worker producer, the bookkeeping of a vectored block writer, and a
//! parser for human-readable sizes.
pub mod error;
pub mod cancellation_token;
pub mod byte_stream;
pub mod xsalsa20;
pub mod block_source_byte_stream;
pub mod reseeding;
pub mod xor_byte_stream;
pub mod hardware_rng;
pub mod os;
pub mod random;
pub mod size;
pub mod producer;
pub mod block_writer;
