//! What can go wrong.

use vstd::prelude::*;

verus! {

/// Why a container report yields no tracks.
#[derive(Debug, Clone, Copy, PartialEq, Eq, Structural)]
pub enum TrackError {
    /// The report has no section of tracks.
    MissingTracksSection,
    /// A subtitle track has no field for its number.
    MissingTrackNumber,
    /// The field for a track's number holds no positive number in its place.
    MalformedTrackNumber,
    /// The field for a track's language holds no code in its place.
    MalformedLanguage,
}

/// Why caption text was not translated.
#[derive(Debug, PartialEq, Eq)]
pub enum TranslateError {
    /// The translation of the segment at `index` failed, and `message` says how.
    TranslationFailure { index: usize, message: String },
    /// `bodies` translated bodies were handed in for `segments` segments.
    ReassemblyLengthMismatch { segments: usize, bodies: usize },
}

/// What a `TranslateError` holds, as plain values.
pub enum TranslateErrorView {
    TranslationFailure { index: usize, message: Seq<char> },
    ReassemblyLengthMismatch { segments: usize, bodies: usize },
}

impl View for TranslateError {
    type V = TranslateErrorView;

    open spec fn view(&self) -> TranslateErrorView {
        match *self {
            TranslateError::TranslationFailure { index, message } => {
                TranslateErrorView::TranslationFailure { index, message: message@ }
            },
            TranslateError::ReassemblyLengthMismatch { segments, bodies } => {
                TranslateErrorView::ReassemblyLengthMismatch { segments, bodies }
            },
        }
    }
}

} // verus!
