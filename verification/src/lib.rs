//! Subtitle tracks of a media container and the translation of their captions.
//!
//! `operations` reads the tracks out of a container report and chooses one;
//! `captions` parts caption text into segments and puts it together again;
//! `translate` says what to ask of a translator and brings its answers, in
//! whatever order they arrive, into the order of the segments. The other
//! modules hold what these rest on: sequences of characters, searched, parted,
//! and read as numbers.

pub mod captions;
pub mod chars;
pub mod error;
pub mod languages;
pub mod number;
pub mod operations;
pub mod search;
pub mod space;
pub mod split;
pub mod translate;
pub mod visible;

pub use captions::{reassemble, segments, CaptionSegment};
pub use error::{TrackError, TranslateError};
pub use languages::translator_languages;
pub use operations::{
    extract_argument, extract_srt, is_media_file, select_track, select_translatable_track,
    temporary_name, tracks, translated_path, Srt, Track,
};
pub use translate::{
    requests, translated_srt, translation_requests, Completion, Orchestrator, Progress,
    TranslationRequest,
};
