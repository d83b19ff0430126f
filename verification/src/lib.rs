//! The HAP family of video codecs.

pub mod bc6h;
pub mod bc7;
pub mod benchmark;
pub mod blocks;
pub mod bytes;
pub mod color;
pub mod decoder;
pub mod display;
pub mod dxt;
pub mod encoder;
pub mod format;
pub mod gpu;
pub mod header;
pub mod inspector;
pub mod job;
pub mod media;
pub mod mov;
pub mod parallel;
pub mod picture;
pub mod player;
pub mod presets;
pub mod single;
pub mod snappy;
pub mod still;
pub mod text;
pub mod tools;
pub mod window;
pub mod ycocg;

pub use color::{preprocess_rgba, AlphaMode, ColorRange, DitherMode, EncodeOptions, QualityPreset};
pub use decoder::{decode_frame_to_rgba, decode_frame_to_texture, DecodeError, RawTextureFrame};
pub use encoder::{encode_frame, encode_frame_with_options, EncodeError};
pub use format::HapFormat;
pub use header::{ChunkInfo, DecodeInstructions, SectionHeader};
pub use inspector::{
    audit_hap_stream, extract_stream_summary, FaultSeverity, StreamAudit, StreamFault, StreamSummary,
};
pub use mov::{FrameSample, MovReaderError, MovWriterError, QtHapReader, QtHapWriter, VideoConfig};
