//! QuickTime MOV containers: writing and reading.

pub mod atoms;
pub mod layout;
pub mod reader;
pub mod round_trip;
pub mod writer;

pub use reader::{FrameSample, MovReaderError, QtHapReader};
pub use writer::{MovWriterError, QtHapWriter, VideoConfig};
