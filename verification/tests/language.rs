use find_similar_words::language::{
    needs_detection, EspeakVoice, Language, Languages, Voice, VoiceLanguage,
};

fn voice(filename: &str, priority: i8) -> EspeakVoice {
    let v = Voice { filename: String::from(filename), languages: Vec::new() };
    EspeakVoice::new(&v, priority)
}

fn add_all(input: &[(&str, i8)]) -> Language {
    let mut l = Language::new("ts");
    for (filename, priority) in input {
        l.add_espeak_voice(voice(filename, *priority));
    }
    l
}

fn order(l: &Language) -> Vec<String> {
    l.espeak_voices().iter().map(|v| v.filename().clone()).collect()
}

fn languages(names: &[&str]) -> Languages {
    let mut ls = Languages::new();
    for l in names {
        ls.get_or_create_mut(l);
    }
    ls
}

fn names(ls: &Languages) -> Vec<String> {
    ls.iter().map(|l| l.name().clone()).collect()
}

#[test]
fn test_voice_get() {
    let filename = "filename";
    let priority = 2_i8;
    let voice = voice(filename, priority);
    assert_eq!(filename, voice.filename());
    assert_eq!(priority, voice.priority());
}

#[test]
fn test_language_init() {
    let name = "ts";
    let l = Language::new(name);
    assert_eq!(name, l.name());
    assert_eq!(true, l.default_espeak_voice().is_none());
    assert_eq!(0, l.espeak_voices().len());
}

#[test]
fn test_language_is() {
    let name = "ts";
    let l = Language::new(name);
    assert_eq!(true, l.is(name));
    assert_eq!(false, l.is("xx"));
}

#[test]
fn test_language_add_voice_one() {
    let l = add_all(&[("x", 0)]);
    assert_eq!("x", l.default_espeak_voice().unwrap().filename());
    assert_eq!(vec!["x"], order(&l));
}

#[test]
fn test_language_add_voice_ascending() {
    let l = add_all(&[("x", 0), ("y", 1), ("z", 2)]);
    assert_eq!("z", l.default_espeak_voice().unwrap().filename());
    assert_eq!(vec!["z", "y", "x"], order(&l));
}

#[test]
fn test_language_add_voice_mixed() {
    let l = add_all(&[("x", 0), ("y", 2), ("z", 1), ("w", -1)]);
    assert_eq!("y", l.default_espeak_voice().unwrap().filename());
    assert_eq!(vec!["y", "z", "x", "w"], order(&l));
}

#[test]
fn test_language_add_voice_equal_priority() {
    let l = add_all(&[("x", 1), ("y", 0), ("z", 1), ("w", 0)]);
    assert_eq!(vec!["z", "x", "w", "y"], order(&l));
}

#[test]
fn test_languages_init() {
    let ls = Languages::new();
    assert_eq!(0, ls.len());
    assert_eq!(true, ls.iter().next().is_none());
    assert!(ls.is_empty());
    assert!(Languages::default().is_empty());
}

#[test]
fn test_languages_get_or_create() {
    let ls = languages(&["x", "y"]);
    assert_eq!(vec!["x", "y"], names(&ls));
    assert_eq!(2, ls.len());
    let ls = languages(&["x", "y", "y", "z", "y", "x", "x"]);
    assert_eq!(vec!["x", "y", "z"], names(&ls));
    assert_eq!(3, ls.len());
    assert!(!ls.is_empty());
}

#[test]
fn test_languages_get_or_create_mut_gives_the_language() {
    let mut ls = Languages::new();
    assert_eq!("x", ls.get_or_create_mut("x").name());
    ls.get_or_create_mut("y").add_espeak_voice(voice("a", 1));
    ls.get_or_create_mut("x").add_espeak_voice(voice("b", 1));
    ls.get_or_create_mut("y").add_espeak_voice(voice("c", 2));
    assert_eq!(vec!["x", "y"], names(&ls));
    assert_eq!(vec!["c", "a"], order(ls.get("y").unwrap()));
    assert_eq!(vec!["b"], order(ls.get("x").unwrap()));
}

#[test]
fn test_languages_default_voice() {
    let mut ls = Languages::new();
    ls.add_voice("en", voice("a", 2));
    ls.add_voice("en", voice("c", 7));
    ls.get_or_create_mut("xx");
    assert_eq!("c", ls.default_voice("en").unwrap());
    assert_eq!("de", ls.default_voice("de").unwrap_err().language);
    assert_eq!("xx", ls.default_voice("xx").unwrap_err().language);
}

#[test]
fn test_languages_filename_width() {
    let mut ls = Languages::new();
    assert_eq!(8, ls.filename_width(8));
    ls.add_voice("en", voice("gmw/en", 2));
    ls.add_voice("de", voice("a-file-of-18-bytes", 5));
    ls.add_voice("de", voice("\u{e9}t\u{e9}", 5));
    assert_eq!(18, ls.filename_width(8));
    assert_eq!(20, ls.filename_width(20));
    assert_eq!(18, ls.filename_width(0));
}

#[test]
fn test_needs_detection() {
    assert!(needs_detection(None, None));
    assert!(!needs_detection(Some("v"), None));
    assert!(!needs_detection(None, Some("en")));
    assert!(!needs_detection(Some("v"), Some("en")));
}

#[test]
fn test_languages_get() {
    let ls = languages(&["x", "y"]);
    assert_eq!(Some(0), ls.index("x"));
    assert_eq!(Some(1), ls.index("y"));
    assert_eq!(None, ls.index("z"));
    assert_eq!("x", ls.get("x").unwrap().name());
    assert_eq!("y", ls.get("y").unwrap().name());
    assert!(ls.get("z").is_none());
}

#[test]
fn test_languages_add_voice() {
    let mut ls = Languages::new();
    ls.add_voice("en", voice("a", 2));
    ls.add_voice("de", voice("b", 5));
    ls.add_voice("en", voice("c", 7));
    assert_eq!(vec!["en", "de"], names(&ls));
    assert_eq!(vec!["c", "a"], order(ls.get("en").unwrap()));
    assert_eq!(vec!["b"], order(ls.get("de").unwrap()));
}

#[test]
fn test_languages_from_voices() {
    let voices = vec![
        Voice {
            filename: String::from("gmw/en"),
            languages: vec![
                VoiceLanguage { name: String::from("en"), priority: 2 },
                VoiceLanguage { name: String::from("en-gb"), priority: 5 },
            ],
        },
        Voice { filename: String::from("none"), languages: vec![] },
        Voice {
            filename: String::from("gmw/en-US"),
            languages: vec![
                VoiceLanguage { name: String::from("en-us"), priority: 2 },
                VoiceLanguage { name: String::from("en"), priority: 3 },
            ],
        },
    ];
    let ls = Languages::from_voices(&voices);
    assert_eq!(vec!["en", "en-gb", "en-us"], names(&ls));
    assert_eq!(vec!["gmw/en-US", "gmw/en"], order(ls.get("en").unwrap()));
    assert_eq!("gmw/en-US", ls.get("en").unwrap().default_espeak_voice().unwrap().filename());
    assert_eq!(3, ls.get("en").unwrap().default_espeak_voice().unwrap().priority());
    assert_eq!(vec!["gmw/en"], order(ls.get("en-gb").unwrap()));
    assert!(Languages::from_voices(&Vec::new()).is_empty());
}
