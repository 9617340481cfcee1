//! Telling the language of a text.
use crate::language_code::{code_view, lang_to_2_letter_code, two_letter_code};
use vstd::prelude::*;
use vstd::string::*;

verus! {

/// What the crate `whatlang` makes of a text: the three-letter code of the
/// language it takes the text for, and whether it holds that to be reliable;
/// nothing where it can tell no language.
pub uninterp spec fn detected(text: Seq<char>) -> Option<(Seq<char>, bool)>;

/// The view of a detection.
pub open spec fn detection_view(detection: Option<(&str, bool)>) -> Option<(Seq<char>, bool)> {
    match detection {
        Some((code, reliable)) => Some((code@, reliable)),
        None => None,
    }
}

/// The two-letter code of the language of a detection that is reliable and
/// whose language the table of codes holds.
pub open spec fn language_of(detection: Option<(Seq<char>, bool)>) -> Option<Seq<char>> {
    match detection {
        Some((code, reliable)) => if reliable {
            two_letter_code(code, 0)
        } else {
            None
        },
        None => None,
    }
}

/// Trusted: `whatlang::detect`, with `Info::lang`, `Lang::code` and
/// `Info::is_reliable` to take its answer apart.
#[verifier::external_body]
fn detect(text: &str) -> (r: Option<(&'static str, bool)>)
    ensures
        detection_view(r) == detected(text@),
{
    match whatlang::detect(text) {
        Some(info) => Some((info.lang().code(), info.is_reliable())),
        None => None,
    }
}

/// The language that a detection stands for: its two-letter code where the
/// detection is reliable.
pub fn reliable_language(detection: Option<(&str, bool)>) -> (r: Option<&'static str>)
    ensures
        code_view(r) == language_of(detection_view(detection)),
{
    match detection {
        Some((code, reliable)) => {
            if reliable {
                lang_to_2_letter_code(code)
            } else {
                None
            }
        },
        None => None,
    }
}

/// The two-letter code of the language of `text`, where it can be told
/// reliably.
pub fn detect_language(text: &str) -> (r: Option<&'static str>)
    ensures
        code_view(r) == language_of(detected(text@)),
{
    reliable_language(detect(text))
}

/// A language that was told from the start of a file, with the part of the
/// file that was read to tell it.
#[derive(Debug)]
pub struct DetectedFileLanguage {
    pub language: &'static str,
    pub partial_file_contents: String,
}

/// What to do after one more line of a file was read.
#[derive(Debug)]
pub enum Detection {
    /// The language is known.
    Found(DetectedFileLanguage),
    /// The file has ended before its language could be told.
    NotEnoughText,
    /// Another line has to be read and added to the contents.
    ReadMore(String),
}

/// Decides how the detection of the language of a file goes on. `contents`
/// is what was read of the file so far, the last line included, and `read`
/// the number of bytes of that line: zero at the end of the file.
pub fn detect_file_language(contents: String, read: usize) -> (r: Detection)
    ensures
        read == 0 ==> r is NotEnoughText,
        read > 0 && language_of(detected(contents@)) is None ==> r == Detection::ReadMore(
            contents,
        ),
        read > 0 && language_of(detected(contents@)) is Some ==> (r matches Detection::Found(d)
            && d.partial_file_contents == contents && Some(d.language@) == language_of(
            detected(contents@),
        )),
{
    if read == 0 {
        return Detection::NotEnoughText;
    }
    match detect_language(contents.as_str()) {
        Some(language) => Detection::Found(
            DetectedFileLanguage { language, partial_file_contents: contents },
        ),
        None => Detection::ReadMore(contents),
    }
}

} // verus!
