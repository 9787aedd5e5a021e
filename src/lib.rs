//! Reading RIFF/WAV containers from an in-memory byte buffer: the chunk walk,
//! the fixed-layout chunk bodies and the `LIST`/`INFO` metadata entries.
pub mod decoder;
pub mod error;
pub mod laws;
pub mod le;
pub mod text;
pub mod walker;
pub mod wav;

pub use decoder::{Chunk, Fmt, Riff};
pub use error::WavError;
pub use walker::{ChunkHeader, ChunkInfo};
pub use wav::WAV;
