//! Decoder for the script containers of *Magical School Lunar!*.
//!
//! A container is a sequence of chunks. Each chunk opens with a map table
//! that locates a table of big-endian offsets; each offset marks the start
//! of one line of Shift-JIS dialogue with in-band control bytes. The crate
//! turns the bytes of a chunk into an ordered list of [`Dialogue`] records,
//! and every step carries a contract over a mathematical model of the bytes.

pub mod bytes;
pub mod chunk;
pub mod dialogue;
pub mod error;
pub mod map_table;
pub mod offset_table;
pub mod render;
pub mod text;

pub use crate::chunk::{decode_chunk, decode_chunks, segment_chunks, ChunkDescriptor};
pub use crate::dialogue::Dialogue;
pub use crate::error::DecodeError;
pub use crate::map_table::MapTable;
pub use crate::offset_table::DialogueOffsetTable;
