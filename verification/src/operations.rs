//! Subtitle tracks: reading them out of a container report, choosing one, and
//! naming the files that belong to it.

use crate::error::TrackError;
use crate::languages::{supported_codes, translator_languages};
use crate::chars::{slice, string_views, to_chars, to_string, views};
use crate::number::{decimal_digits, format_number, number, parse_number};
use crate::search::{
    contains, ends_with, find, last_occurrence, lemma_last_occurrence_is, matches_at, rfind,
    starts_with,
};
use crate::space::{lemma_tokens_hold_no_whitespace, split_tokens, tokens};
use crate::split::{lines, split, split_at_each, split_lines};
use vstd::prelude::*;
use vstd::string::StringExecFns;

verus! {

/// One subtitle stream of a media container.
#[derive(Debug, PartialEq, Eq)]
pub struct Track {
    /// The zero-based index of the stream in its container.
    pub id: usize,
    /// The language code of the stream.
    pub language: String,
}

/// What a `Track` holds, as plain values.
pub struct TrackView {
    pub id: usize,
    pub language: Seq<char>,
}

impl View for Track {
    type V = TrackView;

    open spec fn view(&self) -> TrackView {
        TrackView { id: self.id, language: self.language@ }
    }
}

impl Track {
    /// A track names a language.
    pub open spec fn well_formed(&self) -> bool {
        self.language@.len() > 0
    }
}

/// The caption text of one track, with the language it is written in.
#[derive(Debug, PartialEq, Eq)]
pub struct Srt {
    pub language: String,
    pub content: String,
}

/// The views of a list of tracks.
pub open spec fn track_views(found: Seq<Track>) -> Seq<TrackView> {
    Seq::new(found.len(), |i: int| found[i]@)
}

/// The heading of the section of tracks.
pub open spec fn tracks_marker() -> Seq<char> {
    "|+ Tracks"@
}

/// The heading of one track.
pub open spec fn track_marker() -> Seq<char> {
    "| + Track"@
}

/// The field that marks a track as one of subtitles.
pub open spec fn subtitle_marker() -> Seq<char> {
    "|  + Track type: subtitles"@
}

/// The start of the field that holds a track's number.
pub open spec fn number_field() -> Seq<char> {
    "|  + Track number:"@
}

/// The start of the field that holds a track's language.
pub open spec fn language_field() -> Seq<char> {
    "|  + Language (IETF BCP 47):"@
}

/// The language of a track that names none.
pub open spec fn default_language() -> Seq<char> {
    "en"@
}

/// The section of tracks: what follows the last heading of such a section.
pub open spec fn tracks_section(report: Seq<char>) -> Option<Seq<char>> {
    if contains(report, tracks_marker()) {
        Some(report.skip(last_occurrence(report, tracks_marker()) + tracks_marker().len()))
    } else {
        None
    }
}

/// `chunk` describes a subtitle track.
pub open spec fn is_subtitle_chunk(chunk: Seq<char>) -> bool {
    contains(chunk, subtitle_marker())
}

/// Those of `chunks` that describe subtitle tracks, in their order.
pub open spec fn keep_subtitles(chunks: Seq<Seq<char>>) -> Seq<Seq<char>>
    decreases chunks.len(),
{
    if chunks.len() == 0 {
        Seq::empty()
    } else {
        let before = keep_subtitles(chunks.drop_last());
        if is_subtitle_chunk(chunks.last()) {
            before.push(chunks.last())
        } else {
            before
        }
    }
}

/// The chunks of a section that describe subtitle tracks, in their order.
pub open spec fn subtitle_chunks(section: Seq<char>) -> Seq<Seq<char>> {
    keep_subtitles(split(section, track_marker()))
}

/// The fields of a chunk: its lines but the first, which ends the heading.
pub open spec fn fields(chunk: Seq<char>) -> Seq<Seq<char>> {
    if lines(chunk).len() > 0 {
        lines(chunk).drop_first()
    } else {
        Seq::empty()
    }
}

/// The last of `fields` that begins with `name`.
pub open spec fn last_field(fields: Seq<Seq<char>>, name: Seq<char>) -> Option<Seq<char>>
    decreases fields.len(),
{
    if fields.len() == 0 {
        None
    } else if starts_with(fields.last(), name) {
        Some(fields.last())
    } else {
        last_field(fields.drop_last(), name)
    }
}

/// The track number that `chunk` holds: the number that the fifth token of its
/// number field writes.
pub open spec fn track_number(chunk: Seq<char>) -> Option<usize> {
    match last_field(fields(chunk), number_field()) {
        None => None,
        Some(field) => if tokens(field).len() > 4 {
            number(tokens(field)[4])
        } else {
            None
        },
    }
}

/// The index of the track that `chunk` describes: its track number less one.
/// Track numbers start at one.
pub open spec fn chunk_id(chunk: Seq<char>) -> Result<usize, TrackError> {
    if last_field(fields(chunk), number_field()) is None {
        Err(TrackError::MissingTrackNumber)
    } else {
        match track_number(chunk) {
            Some(n) => if n > 0 {
                Ok((n - 1) as usize)
            } else {
                Err(TrackError::MalformedTrackNumber)
            },
            None => Err(TrackError::MalformedTrackNumber),
        }
    }
}

/// The language of the track that `chunk` describes: the seventh token of its
/// language field, or the default where it has no such field.
pub open spec fn chunk_language(chunk: Seq<char>) -> Result<Seq<char>, TrackError> {
    match last_field(fields(chunk), language_field()) {
        None => Ok(default_language()),
        Some(field) => {
            let found = tokens(field);
            if found.len() > 6 {
                Ok(found[6])
            } else {
                Err(TrackError::MalformedLanguage)
            }
        },
    }
}

/// The track that `chunk` describes. Its number is read before its language.
pub open spec fn chunk_track(chunk: Seq<char>) -> Result<TrackView, TrackError> {
    match chunk_id(chunk) {
        Err(error) => Err(error),
        Ok(id) => match chunk_language(chunk) {
            Err(error) => Err(error),
            Ok(language) => Ok(TrackView { id, language }),
        },
    }
}

/// The tracks that `chunks` describe, or what is wrong with the first chunk
/// that describes none.
pub open spec fn chunk_tracks(chunks: Seq<Seq<char>>) -> Result<Seq<TrackView>, TrackError>
    decreases chunks.len(),
{
    if chunks.len() == 0 {
        Ok(Seq::empty())
    } else {
        match chunk_tracks(chunks.drop_last()) {
            Err(error) => Err(error),
            Ok(before) => match chunk_track(chunks.last()) {
                Err(error) => Err(error),
                Ok(track) => Ok(before.push(track)),
            },
        }
    }
}

/// The subtitle tracks that `report` lists.
pub open spec fn parsed_tracks(report: Seq<char>) -> Result<Seq<TrackView>, TrackError> {
    match tracks_section(report) {
        None => Err(TrackError::MissingTracksSection),
        Some(section) => chunk_tracks(subtitle_chunks(section)),
    }
}

/// How `keep_subtitles` goes on by one chunk.
proof fn lemma_keep_step(chunks: Seq<Seq<char>>, n: int)
    requires
        0 <= n < chunks.len(),
    ensures
        keep_subtitles(chunks.take(n + 1)) == if is_subtitle_chunk(chunks[n]) {
            keep_subtitles(chunks.take(n)).push(chunks[n])
        } else {
            keep_subtitles(chunks.take(n))
        },
{
    let upto = chunks.take(n + 1);
    assert(upto.last() == chunks[n]);
    assert(upto.drop_last() =~= chunks.take(n));
}

/// How `chunk_tracks` goes on by one chunk.
proof fn lemma_tracks_step(kept: Seq<Seq<char>>, chunk: Seq<char>)
    ensures
        chunk_tracks(kept.push(chunk)) == match chunk_tracks(kept) {
            Err(error) => Err::<Seq<TrackView>, TrackError>(error),
            Ok(before) => match chunk_track(chunk) {
                Err(error) => Err(error),
                Ok(track) => Ok(before.push(track)),
            },
        },
{
    let all = kept.push(chunk);
    assert(all.last() == chunk);
    assert(all.drop_last() =~= kept);
}

/// What is wrong with the chunks up to `n` is wrong with all of them.
proof fn lemma_error_stays(chunks: Seq<Seq<char>>, n: int)
    requires
        0 <= n <= chunks.len(),
        chunk_tracks(keep_subtitles(chunks.take(n))) is Err,
    ensures
        chunk_tracks(keep_subtitles(chunks)) == chunk_tracks(keep_subtitles(chunks.take(n))),
    decreases chunks.len() - n,
{
    if n == chunks.len() {
        assert(chunks.take(n) =~= chunks);
    } else {
        lemma_keep_step(chunks, n);
        if is_subtitle_chunk(chunks[n]) {
            lemma_tracks_step(keep_subtitles(chunks.take(n)), chunks[n]);
        }
        lemma_error_stays(chunks, n + 1);
    }
}

/// Chunks yield one track each, in their order, or the error of the first
/// chunk that yields none.
pub proof fn lemma_tracks_per_chunk(chunks: Seq<Seq<char>>)
    ensures
        match chunk_tracks(chunks) {
            Ok(found) => {
                &&& found.len() == chunks.len()
                &&& forall|i: int|
                    0 <= i < chunks.len() ==> chunk_track(#[trigger] chunks[i]) == Ok::<
                        TrackView,
                        TrackError,
                    >(found[i])
            },
            Err(error) => exists|i: int|
                {
                    &&& 0 <= i < chunks.len()
                    &&& chunk_track(#[trigger] chunks[i]) == Err::<TrackView, TrackError>(error)
                    &&& forall|j: int| 0 <= j < i ==> chunk_track(#[trigger] chunks[j]) is Ok
                },
        },
    decreases chunks.len(),
{
    if chunks.len() > 0 {
        let before = chunks.drop_last();
        lemma_tracks_per_chunk(before);
        match chunk_tracks(before) {
            Ok(found) => {
                assert forall|j: int| 0 <= j < before.len() implies chunk_track(
                    #[trigger] chunks[j],
                ) is Ok by {
                    assert(chunks[j] == before[j]);
                }
                match chunk_track(chunks.last()) {
                    Ok(track) => {
                        assert forall|i: int| 0 <= i < chunks.len() implies chunk_track(
                            #[trigger] chunks[i],
                        ) == Ok::<TrackView, TrackError>(found.push(track)[i]) by {
                            if i < before.len() {
                                assert(chunks[i] == before[i]);
                            }
                        }
                    },
                    Err(error) => {
                        assert(chunk_track(chunks[chunks.len() - 1]) == Err::<
                            TrackView,
                            TrackError,
                        >(error));
                    },
                }
            },
            Err(error) => {
                let i = choose|i: int|
                    {
                        &&& 0 <= i < before.len()
                        &&& chunk_track(#[trigger] before[i]) == Err::<TrackView, TrackError>(
                            error,
                        )
                        &&& forall|j: int| 0 <= j < i ==> chunk_track(#[trigger] before[j]) is Ok
                    };
                assert(chunks[i] == before[i]);
                assert forall|j: int| 0 <= j < i implies chunk_track(#[trigger] chunks[j]) is Ok by {
                    assert(chunks[j] == before[j]);
                }
            },
        }
    }
}

/// A track that a chunk describes names a language: a token of the chunk, or
/// the default.
pub proof fn lemma_chunk_language_not_empty(chunk: Seq<char>)
    ensures
        chunk_language(chunk) matches Ok(language) ==> language.len() > 0,
{
    reveal_strlit("en");
    match last_field(fields(chunk), language_field()) {
        None => {},
        Some(field) => {
            lemma_tokens_hold_no_whitespace(field);
        },
    }
}

/// A report with a section of tracks yields one track for each of its subtitle
/// chunks, in their order: the index is the chunk's track number less one, and
/// the language is the chunk's own, or the default where the chunk names none.
/// A report without such a section yields `MissingTracksSection`, and no other
/// report does.
pub proof fn lemma_one_track_per_subtitle_chunk(report: Seq<char>)
    ensures
        parsed_tracks(report) == Err::<Seq<TrackView>, TrackError>(
            TrackError::MissingTracksSection,
        ) <==> !contains(report, tracks_marker()),
        parsed_tracks(report) matches Ok(found) ==> {
            let chunks = subtitle_chunks(tracks_section(report)->0);
            &&& found.len() == chunks.len()
            &&& forall|i: int|
                0 <= i < chunks.len() ==> chunk_track(#[trigger] chunks[i]) == Ok::<
                    TrackView,
                    TrackError,
                >(found[i])
            &&& forall|i: int|
                0 <= i < chunks.len() ==> track_number(#[trigger] chunks[i]) == Some(
                    (found[i].id + 1) as usize,
                )
            &&& forall|i: int|
                0 <= i < chunks.len() && last_field(
                    fields(#[trigger] chunks[i]),
                    language_field(),
                ) is None ==> found[i].language == default_language()
            &&& forall|i: int| 0 <= i < found.len() ==> (#[trigger] found[i]).language.len() > 0
        },
        parsed_tracks(report) is Ok <==> contains(report, tracks_marker()) && forall|i: int|
            0 <= i < subtitle_chunks(tracks_section(report)->0).len() ==> chunk_track(
                #[trigger] subtitle_chunks(tracks_section(report)->0)[i],
            ) is Ok,
{
    if contains(report, tracks_marker()) {
        let chunks = subtitle_chunks(tracks_section(report)->0);
        lemma_tracks_per_chunk(chunks);
        match chunk_tracks(chunks) {
            Ok(found) => {
                assert forall|i: int| 0 <= i < found.len() implies (#[trigger] found[i]).language.len()
                    > 0 by {
                    lemma_chunk_language_not_empty(chunks[i]);
                    assert(chunk_track(chunks[i]) == Ok::<TrackView, TrackError>(found[i]));
                }
            },
            Err(error) => {},
        }
    }
}

/// `result` is what reading `report` gives: the tracks that it lists, or what
/// is wrong with it.
pub open spec fn is_tracks_of(report: Seq<char>, result: Result<Vec<Track>, TrackError>) -> bool {
    match result {
        Ok(found) => parsed_tracks(report) == Ok::<Seq<TrackView>, TrackError>(
            track_views(found@),
        ),
        Err(error) => parsed_tracks(report) == Err::<Seq<TrackView>, TrackError>(error),
    }
}

/// Reading one report twice gives the same: both readings fail with the same
/// error, or both give as many tracks, equal one by one.
pub proof fn lemma_tracks_deterministic(
    report: Seq<char>,
    first: Result<Vec<Track>, TrackError>,
    second: Result<Vec<Track>, TrackError>,
)
    requires
        is_tracks_of(report, first),
        is_tracks_of(report, second),
    ensures
        match (first, second) {
            (Ok(a), Ok(b)) => a.len() == b.len() && forall|i: int|
                0 <= i < a.len() ==> (#[trigger] a[i])@ == b[i]@,
            (Err(a), Err(b)) => a == b,
            _ => false,
        },
{
    match (first, second) {
        (Ok(a), Ok(b)) => {
            assert(track_views(a@) == track_views(b@));
            assert(track_views(a@).len() == a.len());
            assert(track_views(b@).len() == b.len());
            assert forall|i: int| 0 <= i < a.len() implies (#[trigger] a[i])@ == b[i]@ by {
                assert(track_views(a@)[i] == a[i]@);
                assert(track_views(b@)[i] == b[i]@);
            }
        },
        _ => {},
    }
}

/// Whether `pat` stands somewhere in `text`.
fn holds(text: &Vec<char>, pat: &Vec<char>) -> (found: bool)
    ensures
        found == contains(text@, pat@),
{
    find(text, pat, 0).is_some()
}

/// The last of `fields` that begins with `name`, by its index.
fn find_last_field(fields: &Vec<Vec<char>>, name: &Vec<char>) -> (found: Option<usize>)
    ensures
        match found {
            Some(i) => 0 <= i < fields.len() && last_field(views(fields@), name@) == Some(
                fields[i as int]@,
            ),
            None => last_field(views(fields@), name@) is None,
        },
{
    let mut i: usize = fields.len();
    proof {
        assert(views(fields@).take(i as int) =~= views(fields@));
    }
    while i > 0
        invariant
            i <= fields.len(),
            last_field(views(fields@), name@) == last_field(views(fields@).take(i as int), name@),
        decreases i,
    {
        i -= 1;
        proof {
            let upto = views(fields@).take(i + 1);
            assert(upto.last() == fields[i as int]@);
            assert(upto.drop_last() =~= views(fields@).take(i as int));
        }
        if matches_at(&fields[i], name, 0) {
            return Some(i);
        }
    }
    None
}

/// Reads the track that `chunk` describes.
fn parse_chunk(chunk: &Vec<char>) -> (result: Result<Track, TrackError>)
    ensures
        match result {
            Ok(track) => chunk_track(chunk@) == Ok::<TrackView, TrackError>(track@),
            Err(error) => chunk_track(chunk@) == Err::<TrackView, TrackError>(error),
        },
{
    let mut found = split_lines(chunk);
    if found.len() > 0 {
        let ghost all = found@;
        found.remove(0);
        proof {
            assert(views(found@) =~= views(all).drop_first());
        }
    }
    assert(views(found@) == fields(chunk@));
    let number_name = to_chars("|  + Track number:");
    let language_name = to_chars("|  + Language (IETF BCP 47):");
    let id: usize = match find_last_field(&found, &number_name) {
        None => {
            return Err(TrackError::MissingTrackNumber);
        },
        Some(i) => {
            let parts = split_tokens(&found[i]);
            if parts.len() <= 4 {
                return Err(TrackError::MalformedTrackNumber);
            }
            assert(views(parts@)[4] == parts[4]@);
            match parse_number(&parts[4]) {
                None => {
                    return Err(TrackError::MalformedTrackNumber);
                },
                Some(n) => {
                    if n == 0 {
                        return Err(TrackError::MalformedTrackNumber);
                    }
                    n - 1
                },
            }
        },
    };
    let language: String = match find_last_field(&found, &language_name) {
        None => "en".to_owned(),
        Some(i) => {
            let parts = split_tokens(&found[i]);
            if parts.len() <= 6 {
                return Err(TrackError::MalformedLanguage);
            }
            assert(views(parts@)[6] == parts[6]@);
            to_string(&parts[6])
        },
    };
    Ok(Track { id, language })
}

/// The subtitle tracks that a container report lists, in the order in which it
/// lists them.
///
/// The section of tracks is what follows the last heading of such a section.
/// Each of its chunks that is marked as subtitles gives one track: the index is
/// the number in the chunk's number field less one, the language is the code in
/// its language field, or `en` where the chunk has no such field.
pub fn tracks(output: &str) -> (result: Result<Vec<Track>, TrackError>)
    ensures
        is_tracks_of(output@, result),
        result == Err::<Vec<Track>, TrackError>(TrackError::MissingTracksSection) <==> !contains(
            output@,
            tracks_marker(),
        ),
        result matches Ok(found) ==> {
            let chunks = subtitle_chunks(tracks_section(output@)->0);
            &&& found.len() == chunks.len()
            &&& forall|i: int|
                0 <= i < chunks.len() ==> chunk_track(#[trigger] chunks[i]) == Ok::<
                    TrackView,
                    TrackError,
                >(found[i]@)
            &&& forall|i: int|
                0 <= i < chunks.len() ==> track_number(#[trigger] chunks[i]) == Some(
                    (found[i].id + 1) as usize,
                )
            &&& forall|i: int|
                0 <= i < chunks.len() && last_field(
                    fields(#[trigger] chunks[i]),
                    language_field(),
                ) is None ==> found[i].language@ == default_language()
            &&& forall|i: int| 0 <= i < found.len() ==> (#[trigger] found[i]).well_formed()
        },
        result is Ok <==> contains(output@, tracks_marker()) && forall|i: int|
            0 <= i < subtitle_chunks(tracks_section(output@)->0).len() ==> chunk_track(
                #[trigger] subtitle_chunks(tracks_section(output@)->0)[i],
            ) is Ok,
{
    proof {
        lemma_one_track_per_subtitle_chunk(output@);
    }
    let report = to_chars(output);
    let section_name = to_chars("|+ Tracks");
    let track_name = to_chars("| + Track");
    let subtitle_name = to_chars("|  + Track type: subtitles");
    let start: usize = match rfind(&report, &section_name) {
        None => {
            return Err(TrackError::MissingTracksSection);
        },
        Some(i) => {
            proof {
                lemma_last_occurrence_is(report@, section_name@, i as int);
                assert(i + section_name.len() <= report.len());
            }
            i + section_name.len()
        },
    };
    let section = slice(&report, start, report.len());
    assert(tracks_section(output@) == Some(section@));
    let chunks = split_at_each(&section, &track_name);
    let mut found: Vec<Track> = Vec::new();
    let mut i: usize = 0;
    proof {
        assert(views(chunks@).take(0) =~= Seq::<Seq<char>>::empty());
        assert(track_views(found@) =~= Seq::<TrackView>::empty());
    }
    while i < chunks.len()
        invariant
            i <= chunks.len(),
            subtitle_name@ == subtitle_marker(),
            chunk_tracks(keep_subtitles(views(chunks@).take(i as int))) == Ok::<
                Seq<TrackView>,
                TrackError,
            >(track_views(found@)),
            tracks_section(output@) == Some(section@),
            views(chunks@) == split(section@, track_marker()),
        decreases chunks.len() - i,
    {
        let ghost before = track_views(found@);
        proof {
            lemma_keep_step(views(chunks@), i as int);
            lemma_tracks_step(keep_subtitles(views(chunks@).take(i as int)), chunks[i as int]@);
        }
        if holds(&chunks[i], &subtitle_name) {
            match parse_chunk(&chunks[i]) {
                Ok(track) => {
                    found.push(track);
                    proof {
                        assert(track_views(found@) =~= before.push(track@));
                    }
                },
                Err(error) => {
                    proof {
                        lemma_error_stays(views(chunks@), i + 1);
                        lemma_one_track_per_subtitle_chunk(output@);
                    }
                    return Err(error);
                },
            }
        }
        i += 1;
    }
    proof {
        assert(views(chunks@).take(i as int) =~= views(chunks@));
        assert forall|k: int| 0 <= k < found.len() implies (#[trigger] found[k]).well_formed() by {
            assert(track_views(found@)[k] == found[k]@);
        }
    }
    Ok(found)
}

/// The caption text of `track`, as it was taken out of the container.
pub fn extract_srt(track: &Track, content: String) -> (srt: Srt)
    ensures
        srt.language@ == track.language@,
        srt.content@ == content@,
{
    Srt { language: track.language.clone(), content }
}

/// What ends the name of the file that takes the captions for a while.
pub open spec fn temporary_suffix() -> Seq<char> {
    ".tmpsrt"@
}

/// The name of the file that takes the captions of the media file `file_name`
/// until they are read.
pub fn temporary_name(file_name: &str) -> (name: String)
    ensures
        name@ == file_name@ + temporary_suffix(),
{
    let mut name = file_name.to_owned();
    name.append(".tmpsrt");
    name
}

/// What tells the extraction tool to write `track` to `srt_path`: the track's
/// index in decimal digits, a colon, and the path.
pub fn extract_argument(track: &Track, srt_path: &str) -> (argument: String)
    ensures
        argument@ == decimal_digits(track.id as nat) + seq![':'] + srt_path@,
{
    let digits = format_number(track.id);
    let mut argument = to_string(&digits);
    argument.push(':');
    argument.append(srt_path);
    argument
}

/// What ends the name of a media file.
pub open spec fn media_suffix() -> Seq<char> {
    ".mkv"@
}

/// What ends the name of a file of captions.
pub open spec fn caption_suffix() -> Seq<char> {
    ".srt"@
}

/// Whether `name` is the name of a media file.
pub fn is_media_file(name: &str) -> (media: bool)
    ensures
        media == ends_with(name@, media_suffix()),
{
    let chars = to_chars(name);
    let suffix = to_chars(".mkv");
    if chars.len() < suffix.len() {
        return false;
    }
    matches_at(&chars, &suffix, chars.len() - suffix.len())
}

/// The path of the translated captions of the media file at `media_path`: the
/// path with the code of the target language and the ending of a file of
/// captions in place of the ending of a media file. There is none for a path
/// that does not end as a media file does.
pub fn translated_path(media_path: &str, target_language: &str) -> (path: Option<String>)
    ensures
        path is Some <==> ends_with(media_path@, media_suffix()),
        path matches Some(found) ==> found@ == media_path@.take(
            media_path@.len() - media_suffix().len(),
        ) + seq!['.'] + target_language@ + caption_suffix(),
{
    let chars = to_chars(media_path);
    let suffix = to_chars(".mkv");
    if chars.len() < suffix.len() {
        return None;
    }
    let stem_len: usize = chars.len() - suffix.len();
    if !matches_at(&chars, &suffix, stem_len) {
        return None;
    }
    let stem = slice(&chars, 0, stem_len);
    let mut found = to_string(&stem);
    found.push('.');
    found.append(target_language);
    found.append(".srt");
    Some(found)
}

/// The code of the language that is taken first.
pub open spec fn preferred() -> Seq<Seq<char>> {
    seq![default_language()]
}

/// The track at `i` is the last of `tracks` that speaks one of `codes`.
pub open spec fn is_last_speaking(tracks: Seq<TrackView>, codes: Seq<Seq<char>>, i: int) -> bool {
    &&& 0 <= i < tracks.len()
    &&& codes.contains(tracks[i].language)
    &&& forall|j: int| i < j < tracks.len() ==> !codes.contains(#[trigger] tracks[j].language)
}

/// None of `tracks` speaks one of `codes`.
pub open spec fn none_speaking(tracks: Seq<TrackView>, codes: Seq<Seq<char>>) -> bool {
    forall|j: int| 0 <= j < tracks.len() ==> !codes.contains(#[trigger] tracks[j].language)
}

/// `chosen` is the track whose captions are taken: the last that speaks the preferred
/// language, or, where none does, the last that speaks one of `supported`.
pub open spec fn is_selected(
    tracks: Seq<TrackView>,
    supported: Seq<Seq<char>>,
    chosen: Option<usize>,
) -> bool {
    match chosen {
        Some(i) => is_last_speaking(tracks, preferred(), i as int) || (none_speaking(
            tracks,
            preferred(),
        ) && is_last_speaking(tracks, supported, i as int)),
        None => none_speaking(tracks, preferred()) && none_speaking(tracks, supported),
    }
}

/// Whether `code` is one of `codes`.
fn is_one_of(code: &String, codes: &Vec<String>) -> (found: bool)
    ensures
        found == string_views(codes@).contains(code@),
{
    let mut i: usize = 0;
    while i < codes.len()
        invariant
            i <= codes.len(),
            forall|j: int| 0 <= j < i ==> codes[j]@ != code@,
        decreases codes.len() - i,
    {
        if codes[i] == *code {
            assert(string_views(codes@)[i as int] == code@);
            return true;
        }
        i += 1;
    }
    proof {
        assert forall|j: int| 0 <= j < string_views(codes@).len() implies string_views(codes@)[j]
            != code@ by {
            assert(string_views(codes@)[j] == codes[j]@);
        }
    }
    false
}

/// The last of `tracks` that speaks one of `codes`, by its index.
fn last_speaking(tracks: &Vec<Track>, codes: &Vec<String>) -> (found: Option<usize>)
    ensures
        match found {
            Some(i) => is_last_speaking(track_views(tracks@), string_views(codes@), i as int),
            None => none_speaking(track_views(tracks@), string_views(codes@)),
        },
{
    let mut i: usize = tracks.len();
    while i > 0
        invariant
            i <= tracks.len(),
            forall|j: int|
                i <= j < tracks.len() ==> !string_views(codes@).contains(
                    #[trigger] track_views(tracks@)[j].language,
                ),
        decreases i,
    {
        i -= 1;
        assert(track_views(tracks@)[i as int] == tracks[i as int]@);
        if is_one_of(&tracks[i].language, codes) {
            return Some(i);
        }
    }
    None
}

/// The track whose captions are taken, by its index in `tracks`: the last that speaks
/// `en`, or, where none does, the last whose language is one of `supported`.
pub fn select_track(tracks: &Vec<Track>, supported: &Vec<String>) -> (chosen: Option<usize>)
    ensures
        is_selected(track_views(tracks@), string_views(supported@), chosen),
{
    let first: Vec<String> = vec!["en".to_owned()];
    proof {
        assert(string_views(first@) =~= preferred());
    }
    match last_speaking(tracks, &first) {
        Some(i) => Some(i),
        None => last_speaking(tracks, supported),
    }
}

/// The track whose captions are taken, by its index in `tracks`: the last that speaks
/// `en`, or, where none does, the last whose language the translator takes.
pub fn select_translatable_track(tracks: &Vec<Track>) -> (chosen: Option<usize>)
    ensures
        is_selected(track_views(tracks@), supported_codes(), chosen),
{
    let supported = translator_languages();
    select_track(tracks, &supported)
}

} // verus!
