use find_similar_words::language_code::lang_to_2_letter_code;
use find_similar_words::language_detection::{
    detect_file_language, detect_language, reliable_language, Detection,
};
use whatlang::Lang;

fn detect_lines(input: &str) -> Result<(String, String), ()> {
    let mut contents = String::new();
    let mut rest = input;
    loop {
        let read = match rest.find('\n') {
            Some(i) => i + 1,
            None => rest.len(),
        };
        contents.push_str(&rest[..read]);
        rest = &rest[read..];
        match detect_file_language(contents, read) {
            Detection::Found(d) => return Ok((d.language.to_string(), d.partial_file_contents)),
            Detection::NotEnoughText => return Err(()),
            Detection::ReadMore(c) => contents = c,
        }
    }
}

#[test]
fn test_lang_to_2_letter_code() {
    for lang in Lang::all() {
        assert_eq!(2, lang_to_2_letter_code(lang.code()).unwrap().len());
    }
}

#[test]
fn test_lang_to_2_letter_code_values() {
    assert_eq!(Some("eo"), lang_to_2_letter_code("epo"));
    assert_eq!(Some("zh"), lang_to_2_letter_code("cmn"));
    assert_eq!(Some("jp"), lang_to_2_letter_code("jpn"));
    assert_eq!(Some("fa"), lang_to_2_letter_code("pes"));
    assert_eq!(Some("hy"), lang_to_2_letter_code("hye"));
    assert_eq!(None, lang_to_2_letter_code("xxx"));
    assert_eq!(None, lang_to_2_letter_code("en"));
    assert_eq!(None, lang_to_2_letter_code(""));
}

#[test]
fn test_reliable_language() {
    assert_eq!(Some("de"), reliable_language(Some(("deu", true))));
    assert_eq!(None, reliable_language(Some(("deu", false))));
    assert_eq!(None, reliable_language(Some(("xxx", true))));
    assert_eq!(None, reliable_language(None));
}

#[test]
fn test_detect_language_unreliable() {
    for input in ["", "   ", "test"] {
        assert_eq!(None, detect_language(input));
    }
}

#[test]
fn test_detect_language() {
    assert_eq!(Some("en"), detect_language("The quick brown fox jumps over the lazy dog and feels as if he were in the seventh heaven of typography"));
    assert_eq!(Some("de"), detect_language("Stanleys Expeditionszug quer durch Afrika wird von jedermann bewundert"));
    assert_eq!(Some("fr"), detect_language("Le vif renard brun saute par-dessus le chien paresseux"));
    assert_eq!(Some("ru"), detect_language("\u{428}\u{443}\u{441}\u{442}\u{440}\u{430}\u{44f} \u{431}\u{443}\u{440}\u{430}\u{44f} \u{43b}\u{438}\u{441}\u{438}\u{446}\u{430} \u{43f}\u{440}\u{44b}\u{433}\u{430}\u{435}\u{442} \u{447}\u{435}\u{440}\u{435}\u{437} \u{43b}\u{435}\u{43d}\u{438}\u{432}\u{43e}\u{433}\u{43e} \u{43f}\u{441}\u{430}"));
}

#[test]
fn test_detect_file_language_unreliable() {
    for input in ["", "   ", "test"] {
        assert_eq!(true, detect_lines(input).is_err());
    }
}

#[test]
fn test_detect_file_language() {
    let input = "Lorem ipsum dolor sit amet,\nconsectetur adipiscing elit, sed\ndo eiusmod tempor incididunt ut labore et dolore\nmagna aliqua. Ut enim ad minim veniam, quis\nnostrud exercitation ullamco laboris nisi ut aliquip\nex ea commodo consequat.";
    let (language, read) = detect_lines(input).unwrap();
    assert_eq!("la", language);
    assert!(input.starts_with(&read));
    assert_ne!(input, read);
}

#[test]
fn test_detect_file_language_end_of_file() {
    assert!(matches!(detect_file_language(String::from("text"), 0), Detection::NotEnoughText));
    assert!(matches!(detect_file_language(String::from("test"), 4), Detection::ReadMore(c) if c == "test"));
}
