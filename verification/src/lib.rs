//! A verified decoder for `BGM` files, the background music format of Paper Mario (N64).
//!
//! [`Bgm::from_bytes`] reads a whole file. The contracts say what each decoder returns as a
//! function of the bytes it reads: the spec functions whose names end in `_at` are that function.
//!
//! What holds of these functions is proved in the modules whose names end in `laws`, and in
//! [`encoding`]: among it, what each part of a song says of the bytes of its file.

pub mod basic_laws;
pub mod bgm;
pub mod collect;
pub mod command;
pub mod cursor;
pub mod de;
pub mod encoding;
pub mod error;
pub mod file_laws;
pub mod laws;
pub mod name;
pub mod offset_map;
pub mod sequence;
pub mod song_laws;
pub mod text;
pub mod view_laws;

pub use bgm::{Bgm, Drum, Segment, Subsegment, TaggedRc, Track, Tracks, Voice};
pub use command::{
    Command, CommandRange, CommandSeq, Marker, MarkerRc, MarkerRef, MarkerWeak, PlacedMarker,
    UnknownBytes,
};
pub use cursor::Cursor;
pub use de::{align, Decoded, MAGIC};
pub use error::{Error, Failure, Fault, IoError, NameError};
pub use offset_map::OffsetCommandMap;
