use find_similar_words::dictionary::{search, Dictionary};
use find_similar_words::iter::str_lines;
use find_similar_words::options::{length_allowed, Options};

fn loaded(file_contents: &str, min: usize, max: usize) -> Vec<(String, String)> {
    let dict = Options::load_dict(&str_lines(file_contents), min, max);
    let mut res: Vec<(String, String)> =
        dict.iter().map(|w| (w.word.clone(), w.phonemes.clone())).collect();
    res.sort_by(|x, y| x.0.cmp(&y.0));
    res
}

fn pairs(items: &[(&str, &str)]) -> Vec<(String, String)> {
    items.iter().map(|(w, p)| (w.to_string(), p.to_string())).collect()
}

fn strings(groups: &[&[&str]]) -> Vec<Vec<String>> {
    groups.iter().map(|g| g.iter().map(|w| w.to_string()).collect()).collect()
}

fn found(input: &str, input2: Option<&str>, normalize: bool, min: usize, max: usize, d: usize) -> Vec<Vec<String>> {
    let lines = str_lines(input);
    let lines2 = input2.map(str_lines);
    Options::from_args(&lines, lines2.as_ref(), normalize, min, max, d).results()
}

#[test]
fn test_options_load_dict_empty() {
    assert_eq!(pairs(&[]), loaded("", 0, 9));
}

#[test]
fn test_options_load_dict_all() {
    assert_eq!(
        pairs(&[("xx", "x"), ("yyy", "y"), ("zzzz", "z")]),
        loaded("xx\tx\nyyy\ty\nzzzz\tz\n", 0, 9)
    );
    assert_eq!(
        pairs(&[("xx", "x"), ("yyy", "y"), ("zzzz", "z")]),
        loaded("xx\tx\nyyy\ty\nzzzz\tz\n", 0, usize::MAX)
    );
}

#[test]
fn test_options_load_dict_too_long() {
    assert_eq!(pairs(&[]), loaded("xx\tx\nyyy\ty\nzzzz\tz\n", 0, 0));
}

#[test]
fn test_options_load_dict_short() {
    assert_eq!(pairs(&[("xx", "x"), ("yyy", "y")]), loaded("xx\tx\nyyy\ty\nzzzz\tz\n", 0, 3));
}

#[test]
fn test_options_load_dict_long() {
    assert_eq!(pairs(&[("zzzz", "z")]), loaded("xx\tx\nyyy\ty\nzzzz\tz\n", 4, 9));
}

#[test]
fn test_options_load_dict_counts_grapheme_clusters() {
    let word = "H\u{36d}\u{343}\u{343}\u{307}\u{357}\u{30e}\u{300}\u{321}\u{32b}\u{324}\u{324}\u{323}\u{349}\u{324}";
    let line = format!("{}\txxx", word);
    assert_eq!(pairs(&[(word, "xxx")]), loaded(&line, 1, 1));
    assert_eq!(pairs(&[]), loaded(&line, 2, 20));
}

#[test]
fn test_options_load_dict_passes_over_bad_lines() {
    assert_eq!(pairs(&[("a", "x"), ("b", "y")]), loaded("a\tx\n\nno tabulator\n \t \n b \t y \n", 0, usize::MAX));
}

#[test]
fn test_length_allowed() {
    assert!(length_allowed(3, 3, 3));
    assert!(length_allowed(0, 0, usize::MAX));
    assert!(!length_allowed(2, 3, 5));
    assert!(!length_allowed(6, 3, 5));
    assert!(!length_allowed(4, 5, 3));
}

#[test]
fn test_options_from_args() {
    let lines = str_lines("a\t\u{28c}\nb\tx\n");
    let opts = Options::from_args(&lines, None, true, 0, usize::MAX, 3);
    assert_eq!(3, opts.max_distance);
    assert!(opts.dict2.is_none());
    assert_eq!("a", opts.dict.get(0).unwrap().phonemes);
    let opts = Options::from_args(&lines, Some(&lines), false, 0, usize::MAX, 0);
    assert_eq!("\u{28c}", opts.dict.get(0).unwrap().phonemes);
    assert_eq!("\u{28c}", opts.dict2.unwrap().get(0).unwrap().phonemes);
}

#[test]
fn test_results_default() {
    assert_eq!(strings(&[]), found("", None, false, 0, usize::MAX, 0));
    assert_eq!(
        strings(&[&["aa", "cc"]]),
        found("cc\ta\n bb\tb\n cc\ta\n aa\ta\n", None, false, 0, usize::MAX, 0)
    );
}

#[test]
fn test_results_length() {
    let input = "c\ta\n bb\tb\n c\ta\n aa\ta\n ddd\tb\n";
    assert_eq!(strings(&[&["bb", "ddd"]]), found(input, None, false, 2, 3, 0));
    assert_eq!(strings(&[&["aa", "c"]]), found("c\ta\n bb\tb\n c\ta\n aa\ta\n", None, false, 1, 2, 0));
    assert_eq!(strings(&[&["aa", "c"], &["bb", "ddd"]]), found(input, None, false, 1, 4, 0));
}

#[test]
fn test_results_distance() {
    let input = "a\tx\n ab\txy\n bb\tyy\n";
    assert_eq!(strings(&[]), found(input, None, false, 0, usize::MAX, 0));
    assert_eq!(
        strings(&[&["a", "ab"], &["ab", "a", "bb"], &["bb", "ab"]]),
        found(input, None, false, 0, usize::MAX, 1)
    );
    assert_eq!(
        strings(&[&["a", "ab", "bb"], &["ab", "a", "bb"], &["bb", "a", "ab"]]),
        found(input, None, false, 0, usize::MAX, 2)
    );
}

#[test]
fn test_results_two_files() {
    assert_eq!(
        strings(&[&["ab", "bb"]]),
        found("cc\ta\n bb\tb\n cc\ta\n aa\ta\n", Some("cc\tx\n ab\tb\n"), false, 0, usize::MAX, 0)
    );
    assert_eq!(
        strings(&[&["cc", "cc", "ab"], &["bb", "cc", "ab"], &["cc", "cc", "ab"], &["aa", "cc", "ab"]]),
        found("cc\ta\n bb\tb\n cc\ta\n aa\ta\n", Some("cc\tx\n ab\tb\n"), false, 0, usize::MAX, 1)
    );
}

#[test]
fn test_results_normalize() {
    assert_eq!(
        strings(&[&["a", "b"]]),
        found("a\tt\u{28c}\u{2c8}k\n b\tt a k\n", None, true, 0, usize::MAX, 0)
    );
    assert_eq!(strings(&[]), found("a\tt\u{28c}\u{2c8}k\n b\tt a k\n", None, false, 0, usize::MAX, 0));
}

#[test]
fn test_search_leaves_the_word_itself_out() {
    let dict = Dictionary::from_entries(&[("a", "x"), ("b", "x"), ("a", "x"), ("c", "zzz")]);
    let lines: Vec<Vec<String>> = search(&dict, &dict, 1)
        .iter()
        .map(|l| l.iter().map(|w| w.word.clone()).collect())
        .collect();
    assert_eq!(strings(&[&["a", "b"], &["b", "a", "a"], &["a", "b"]]), lines);
}

#[test]
fn test_accepts_files() {
    assert!(Options::accepts_files(0));
    assert!(Options::accepts_files(2));
    assert!(!Options::accepts_files(3));
}
