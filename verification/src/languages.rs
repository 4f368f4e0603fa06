//! The languages that the translator takes.

use crate::chars::string_views;
use vstd::prelude::*;

verus! {

/// The codes of the languages that the translator takes, in the order in which
/// it lists them.
pub open spec fn supported_codes() -> Seq<Seq<char>> {
    seq![
        "af"@, "sq"@, "am"@, "ar"@, "hy"@, "az"@, "eu"@, "be"@, "bn"@, "bs"@, "bg"@, "ca"@,
        "ceb"@, "ny"@, "zh"@, "zh-TW"@, "co"@, "hr"@, "cs"@, "da"@, "nl"@, "en"@, "eo"@, "et"@,
        "tl"@, "fi"@, "fr"@, "fy"@, "gl"@, "ka"@, "de"@, "el"@, "gu"@, "ht"@, "ha"@, "haw"@,
        "he"@, "hi"@, "hmn"@, "hu"@, "is"@, "ig"@, "id"@, "ga"@, "it"@, "ja"@, "jv"@, "kn"@,
        "kk"@, "km"@, "rw"@, "ko"@, "ku"@, "ky"@, "lo"@, "la"@, "lv"@, "lt"@, "lb"@, "mk"@,
        "mg"@, "ms"@, "ml"@, "mt"@, "mi"@, "mr"@, "mn"@, "my"@, "ne"@, "no"@, "or"@, "ps"@,
        "fa"@, "pl"@, "pt"@, "pa"@, "ro"@, "ru"@, "sm"@, "gd"@, "sr"@, "st"@, "sn"@, "sd"@,
        "si"@, "sk"@, "sl"@, "so"@, "es"@, "su"@, "sw"@, "sv"@, "tg"@, "ta"@, "te"@, "th"@,
        "tr"@, "uk"@, "ur"@, "ug"@, "uz"@, "vi"@, "cy"@, "xh"@, "yi"@, "yo"@, "zu"@,
    ]
}

/// `rust_translate::supported_languages::get_languages` hands out the codes of
/// the languages that it lists as supported, in the order of that list.
pub assume_specification[ rust_translate::supported_languages::get_languages ]() -> (codes: Vec<
    &'static str,
>)
    ensures
        codes@.len() == supported_codes().len(),
        forall|i: int| 0 <= i < codes@.len() ==> (#[trigger] codes@[i])@ == supported_codes()[i],
;

/// The codes of the languages that the translator takes.
pub fn translator_languages() -> (codes: Vec<String>)
    ensures
        string_views(codes@) == supported_codes(),
{
    let known = rust_translate::supported_languages::get_languages();
    let mut codes: Vec<String> = Vec::new();
    let mut i: usize = 0;
    while i < known.len()
        invariant
            i <= known.len(),
            codes.len() == i,
            forall|k: int| 0 <= k < i ==> (#[trigger] codes[k])@ == known[k]@,
        decreases known.len() - i,
    {
        codes.push(known[i].to_owned());
        i += 1;
    }
    proof {
        assert(string_views(codes@) =~= supported_codes());
    }
    codes
}

} // verus!
