//! Two-letter codes of languages.
use crate::text::str_eq;
use vstd::prelude::*;

verus! {

/// The languages that can be told from a text: the three-letter code of each
/// (ISO 639-3), with the two-letter code under which voices are filed.
pub const LANGUAGE_CODES: [(&'static str, &'static str); 69] = [
    ("epo", "eo"),
    ("eng", "en"),
    ("rus", "ru"),
    ("cmn", "zh"),
    ("spa", "es"),
    ("por", "pt"),
    ("ita", "it"),
    ("ben", "bn"),
    ("fra", "fr"),
    ("deu", "de"),
    ("ukr", "uk"),
    ("kat", "ka"),
    ("ara", "ar"),
    ("hin", "hi"),
    ("jpn", "jp"),
    ("heb", "he"),
    ("yid", "yi"),
    ("pol", "pl"),
    ("amh", "am"),
    ("jav", "jv"),
    ("kor", "ko"),
    ("nob", "nb"),
    ("dan", "da"),
    ("swe", "sv"),
    ("fin", "fi"),
    ("tur", "tr"),
    ("nld", "nl"),
    ("hun", "hu"),
    ("ces", "cs"),
    ("ell", "el"),
    ("bul", "bg"),
    ("bel", "be"),
    ("mar", "mr"),
    ("kan", "kn"),
    ("ron", "ro"),
    ("slv", "sl"),
    ("hrv", "hr"),
    ("srp", "sr"),
    ("mkd", "mk"),
    ("lit", "lt"),
    ("lav", "lv"),
    ("est", "et"),
    ("tam", "ta"),
    ("vie", "vi"),
    ("urd", "ur"),
    ("tha", "th"),
    ("guj", "gu"),
    ("uzb", "uz"),
    ("pan", "pa"),
    ("aze", "az"),
    ("ind", "id"),
    ("tel", "te"),
    ("pes", "fa"),
    ("mal", "ml"),
    ("ori", "or"),
    ("mya", "my"),
    ("nep", "ne"),
    ("sin", "si"),
    ("khm", "km"),
    ("tuk", "tk"),
    ("aka", "ak"),
    ("zul", "zu"),
    ("sna", "sn"),
    ("afr", "af"),
    ("lat", "la"),
    ("slk", "sk"),
    ("cat", "ca"),
    ("tgl", "tl"),
    ("hye", "hy"),
];

/// The two-letter code of the first language at or after `from` in the table
/// whose three-letter code is `code`.
pub open spec fn two_letter_code(code: Seq<char>, from: int) -> Option<Seq<char>>
    decreases LANGUAGE_CODES@.len() - from,
{
    if from < 0 || from >= LANGUAGE_CODES@.len() {
        None
    } else if LANGUAGE_CODES@[from].0@ == code {
        Some(LANGUAGE_CODES@[from].1@)
    } else {
        two_letter_code(code, from + 1)
    }
}

/// The view of a code that may be missing.
pub open spec fn code_view(code: Option<&str>) -> Option<Seq<char>> {
    match code {
        Some(c) => Some(c@),
        None => None,
    }
}

/// The two-letter code of the language with the three-letter code `lang`, if
/// the table holds it.
pub fn lang_to_2_letter_code(lang: &str) -> (r: Option<&'static str>)
    ensures
        code_view(r) == two_letter_code(lang@, 0),
{
    let mut i: usize = 0;
    while i < 69
        invariant
            i <= 69,
            LANGUAGE_CODES@.len() == 69,
            two_letter_code(lang@, 0) == two_letter_code(lang@, i as int),
        decreases 69 - i,
    {
        let entry = LANGUAGE_CODES[i];
        if str_eq(entry.0, lang) {
            return Some(entry.1);
        }
        i += 1;
    }
    None
}

} // verus!
