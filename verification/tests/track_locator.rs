use srt_translator::operations::{
    extract_argument, extract_srt, is_media_file, select_track, select_translatable_track,
    temporary_name, tracks, translated_path, Track,
};
use srt_translator::TrackError;

const HEAD: &str = "+ EBML head\n|+ EBML version: 1\n|+ Document type: matroska\n+ Segment: size 734003200\n|+ Seek head (subentries will be skipped)\n|+ Segment information\n| + Timestamp scale: 1000000\n| + Duration: 01:02:03.004000000\n";

fn report(chunks: &[&str]) -> String {
    let mut text = String::from(HEAD);
    text.push_str("|+ Tracks\n");
    for chunk in chunks {
        text.push_str("| + Track\n");
        text.push_str(chunk);
    }
    text
}

fn track(id: usize, language: &str) -> Track {
    Track { id, language: language.to_owned() }
}

const VIDEO: &str = "|  + Track number: 1 (track ID for mkvmerge & mkvextract: 0)\n|  + Track UID: 11\n|  + Track type: video\n|  + Codec ID: V_MPEG4/ISO/AVC\n|  + Language: und\n|  + Video track\n|   + Pixel width: 1920\n";
const SUB_A: &str = "|  + Track number: 2 (track ID for mkvmerge & mkvextract: 1)\n|  + Track UID: 22\n|  + Track type: subtitles\n|  + Codec ID: S_TEXT/UTF8\n";
const SUB_B: &str = "|  + Track number: 3 (track ID for mkvmerge & mkvextract: 2)\n|  + Track UID: 33\n|  + Track type: subtitles\n|  + Codec ID: S_TEXT/UTF8\n|  + Language (IETF BCP 47): fr\n";

#[test]
fn two_subtitle_chunks_parse_to_two_tracks() {
    let text = report(&[SUB_A, SUB_B]);
    assert_eq!(tracks(&text), Ok(vec![track(1, "en"), track(2, "fr")]));
}

#[test]
fn other_track_types_are_left_out() {
    let text = report(&[VIDEO, SUB_B, VIDEO, SUB_A]);
    assert_eq!(tracks(&text), Ok(vec![track(2, "fr"), track(1, "en")]));
}

#[test]
fn chunk_without_language_field_speaks_english() {
    let text = report(&[SUB_A]);
    let found = tracks(&text).unwrap();
    assert_eq!(found.len(), 1);
    assert_eq!(found[0].language, "en");
}

#[test]
fn older_language_field_does_not_count() {
    let chunk = "|  + Track number: 5 (track ID for mkvmerge & mkvextract: 4)\n|  + Track type: subtitles\n|  + Language: ger\n";
    assert_eq!(tracks(&report(&[chunk])), Ok(vec![track(4, "en")]));
}

#[test]
fn parsing_twice_gives_the_same() {
    let text = report(&[VIDEO, SUB_A, SUB_B]);
    assert_eq!(tracks(&text), tracks(&text));
    let broken = report(&["|  + Track type: subtitles\n"]);
    assert_eq!(tracks(&broken), tracks(&broken));
}

#[test]
fn section_without_subtitles_gives_no_tracks() {
    assert_eq!(tracks(&report(&[VIDEO])), Ok(vec![]));
    assert_eq!(tracks("|+ Tracks"), Ok(vec![]));
}

#[test]
fn missing_tracks_section_is_an_error() {
    assert_eq!(tracks(""), Err(TrackError::MissingTracksSection));
    assert_eq!(tracks(HEAD), Err(TrackError::MissingTracksSection));
    let no_heading = format!("{}| + Track\n{}", HEAD, SUB_A);
    assert_eq!(tracks(&no_heading), Err(TrackError::MissingTracksSection));
}

#[test]
fn the_last_tracks_section_counts() {
    let mut text = report(&[SUB_A]);
    text.push_str("|+ Tracks\n| + Track\n");
    text.push_str(SUB_B);
    assert_eq!(tracks(&text), Ok(vec![track(2, "fr")]));
}

#[test]
fn missing_track_number_is_an_error() {
    let chunk = "|  + Track UID: 22\n|  + Track type: subtitles\n";
    assert_eq!(tracks(&report(&[chunk])), Err(TrackError::MissingTrackNumber));
    let on_heading_line = format!("{}|+ Tracks\n| + Track|  + Track type: subtitles", HEAD);
    assert_eq!(tracks(&on_heading_line), Err(TrackError::MissingTrackNumber));
}

#[test]
fn number_field_on_the_heading_line_is_not_read() {
    let text = format!(
        "{}|+ Tracks\n| + Track|  + Track number: 4 x\n|  + Track type: subtitles\n",
        HEAD
    );
    assert_eq!(tracks(&text), Err(TrackError::MissingTrackNumber));
}

#[test]
fn malformed_track_number_is_an_error() {
    for field in [
        "|  + Track number:",
        "|  + Track number: ",
        "|  + Track number:7",
        "|  + Track number: seven",
        "|  + Track number: 7a",
        "|  + Track number: -7",
        "|  + Track number: 0",
        "|  + Track number: 99999999999999999999999999",
    ] {
        let chunk = format!("{}\n|  + Track type: subtitles\n", field);
        assert_eq!(
            tracks(&report(&[&chunk])),
            Err(TrackError::MalformedTrackNumber),
            "{}",
            field
        );
    }
}

#[test]
fn track_number_is_read_as_a_decimal_number() {
    for (field, id) in [
        ("|  + Track number: 1", 0usize),
        ("|  + Track number: +12 (x)", 11),
        ("|  + Track number: 007", 6),
        ("|  + Track number:\t 4294967295", 4294967294),
    ] {
        let chunk = format!("{}\n|  + Track type: subtitles\n", field);
        assert_eq!(tracks(&report(&[&chunk])), Ok(vec![track(id, "en")]), "{}", field);
    }
}

#[test]
fn malformed_language_is_an_error() {
    for field in ["|  + Language (IETF BCP 47):", "|  + Language (IETF BCP 47):fr"] {
        let chunk = format!("{}{}\n", SUB_A, field);
        assert_eq!(tracks(&report(&[&chunk])), Err(TrackError::MalformedLanguage), "{}", field);
    }
}

#[test]
fn the_number_is_read_before_the_language() {
    let chunk = "|  + Track type: subtitles\n|  + Language (IETF BCP 47):\n|  + Track number: x\n";
    assert_eq!(tracks(&report(&[chunk])), Err(TrackError::MalformedTrackNumber));
}

#[test]
fn the_first_bad_chunk_gives_the_error() {
    let no_number = "|  + Track type: subtitles\n";
    let bad_language = format!("{}|  + Language (IETF BCP 47):\n", SUB_A);
    assert_eq!(
        tracks(&report(&[SUB_A, &bad_language, no_number])),
        Err(TrackError::MalformedLanguage)
    );
    assert_eq!(
        tracks(&report(&[no_number, &bad_language])),
        Err(TrackError::MissingTrackNumber)
    );
    assert_eq!(
        tracks(&report(&[VIDEO, no_number])),
        Err(TrackError::MissingTrackNumber)
    );
}

#[test]
fn the_last_field_of_a_kind_counts() {
    let chunk = "|  + Track number: 2 (a)\n|  + Track type: subtitles\n|  + Language (IETF BCP 47): de\n|  + Track number: 9 (b)\n|  + Language (IETF BCP 47): it\n";
    assert_eq!(tracks(&report(&[chunk])), Ok(vec![track(8, "it")]));
}

#[test]
fn carriage_returns_end_lines_too() {
    let chunk = "|  + Track number: 2 (a)\r\n|  + Track type: subtitles\r\n|  + Language (IETF BCP 47): pt-BR\r\n";
    let text = format!("|+ Tracks\r\n| + Track\r\n{}", chunk);
    assert_eq!(tracks(&text), Ok(vec![track(1, "pt-BR")]));
}

#[test]
fn every_track_names_a_language() {
    let text = report(&[SUB_A, SUB_B, VIDEO]);
    for found in tracks(&text).unwrap() {
        assert!(!found.language.is_empty());
    }
}

#[test]
fn extracted_captions_keep_the_language_of_their_track() {
    let srt = extract_srt(&track(2, "fr"), "1\n00:00:01,000 --> 00:00:02,000\nSalut".to_owned());
    assert_eq!(srt.language, "fr");
    assert_eq!(srt.content, "1\n00:00:01,000 --> 00:00:02,000\nSalut");
}

#[test]
fn temporary_name_ends_in_tmpsrt() {
    assert_eq!(temporary_name("film.mkv"), "film.mkv.tmpsrt");
    assert_eq!(temporary_name(""), ".tmpsrt");
}

#[test]
fn extract_argument_is_index_colon_path() {
    assert_eq!(extract_argument(&track(0, "en"), "/a/b.tmpsrt"), "0:/a/b.tmpsrt");
    assert_eq!(extract_argument(&track(7, "en"), "x"), "7:x");
    assert_eq!(extract_argument(&track(10, "en"), ""), "10:");
    assert_eq!(extract_argument(&track(4294967295, "en"), "é"), "4294967295:é");
}

#[test]
fn media_files_end_in_mkv() {
    assert!(is_media_file("film.mkv"));
    assert!(is_media_file(".mkv"));
    assert!(!is_media_file("mkv"));
    assert!(!is_media_file("film.mkv.srt"));
    assert!(!is_media_file("film.MKV"));
    assert!(!is_media_file(""));
}

#[test]
fn translated_path_replaces_the_extension() {
    assert_eq!(translated_path("/films/a.mkv", "fr"), Some("/films/a.fr.srt".to_owned()));
    assert_eq!(translated_path("é.mkv", "en"), Some("é.en.srt".to_owned()));
    assert_eq!(translated_path(".mkv", ""), Some("..srt".to_owned()));
    assert_eq!(translated_path("a.mp4", "fr"), None);
    assert_eq!(translated_path("mkv", "fr"), None);
}

#[test]
fn the_last_english_track_is_selected() {
    let found = vec![track(1, "en"), track(2, "fr"), track(3, "en"), track(4, "de")];
    let supported = vec!["fr".to_owned(), "de".to_owned()];
    assert_eq!(select_track(&found, &supported), Some(2));
    assert_eq!(select_track(&found, &vec![]), Some(2));
}

#[test]
fn without_english_the_last_supported_track_is_selected() {
    let found = vec![track(1, "fr"), track(2, "de"), track(3, "tlh")];
    let supported = vec!["de".to_owned(), "fr".to_owned()];
    assert_eq!(select_track(&found, &supported), Some(1));
    assert_eq!(select_track(&found, &vec!["fr".to_owned()]), Some(0));
    assert_eq!(select_track(&found, &vec!["es".to_owned()]), None);
    assert_eq!(select_track(&vec![], &supported), None);
}

#[test]
fn the_translator_decides_what_is_supported() {
    let found = vec![track(1, "fr"), track(2, "tlh-x-none")];
    assert_eq!(select_translatable_track(&found), Some(0));
    let english = vec![track(1, "en"), track(2, "fr")];
    assert_eq!(select_translatable_track(&english), Some(0));
    assert_eq!(select_translatable_track(&vec![track(1, "tlh-x-none")]), None);
}

#[test]
fn the_translator_lists_its_languages() {
    let codes = srt_translator::translator_languages();
    assert_eq!(codes, rust_translate::supported_languages::get_languages());
    assert_eq!(codes.len(), 107);
    assert_eq!(codes[0], "af");
    assert_eq!(codes[15], "zh-TW");
    assert_eq!(codes[21], "en");
    assert_eq!(codes[106], "zu");
}

#[test]
fn listed_languages_are_selected() {
    let found = vec![track(1, "zu"), track(2, "af"), track(3, "zh-TW"), track(4, "zh-tw")];
    assert_eq!(select_translatable_track(&found), Some(2));
    assert_eq!(select_translatable_track(&found[..1].iter().map(|t| track(t.id, &t.language)).collect()), Some(0));
    assert_eq!(select_translatable_track(&vec![track(4, "EN"), track(5, "")]), None);
}
