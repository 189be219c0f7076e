//! Reading, cleaning and writing SubRip (`.srt`) subtitles: blocks are read into timed
//! entries, entries with unwanted text are dropped, and the rest is written back numbered
//! from 1 in canonical form.

pub mod direction;
pub mod document;
pub mod error;
pub mod subtitle;
pub mod text;
pub mod timestamp;

pub use direction::Direction;
pub use document::SRT;
pub use error::SrtError;
pub use subtitle::Subtitle;
pub use timestamp::Timestamp;
