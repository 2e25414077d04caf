//! Buffered reading over an abstract blocking byte source.
//!
//! The buffers in this crate own a byte region, read source data into it,
//! and hand callers exactly the bytes that were actually read - never stale
//! or uninitialized bytes.

mod dyn_read_buffer;
mod errors;
mod laws;
mod read_buffer;
mod source;

pub use crate::dyn_read_buffer::DynReadBuffer;
pub use crate::dyn_read_buffer::READ_CHUNK;
pub use crate::dyn_read_buffer::delimited_prefix;
pub use crate::dyn_read_buffer::exact_read;
pub use crate::errors::ReadError;
pub use crate::laws::lemma_error_preserves_residue;
pub use crate::laws::lemma_exact_reads_chain;
pub use crate::laws::lemma_mixed_mode_continuation;
pub use crate::laws::lemma_read_bytes_deterministic;
pub use crate::laws::lemma_read_until_deterministic;
pub use crate::read_buffer::ChunkPredicate;
pub use crate::read_buffer::KeepAll;
pub use crate::read_buffer::ReadBuffer;
pub use crate::source::ByteSource;
pub use crate::source::ChunkedSource;
pub use crate::source::SliceSource;



