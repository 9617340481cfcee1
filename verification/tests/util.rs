use find_similar_words::iter::{dedup, str_lines};
use find_similar_words::text::{group_less, split_whitespace};
use find_similar_words::util::{is_blank, to_tsv_pair, trim, tsv_line, Buckets, Multimap};

fn filled(input: &[(&str, usize)]) -> Vec<Vec<usize>> {
    let mut map = Buckets::<usize>::new();
    for (k, v) in input {
        map.mm_insert(k.to_string(), *v);
    }
    map.into_values()
}

#[test]
fn test_to_tsv_pair_invalid() {
    for input in ["", " ", "\t", "\t \t ", "xx\t \t ", "\t \txx "] {
        assert_eq!(None, to_tsv_pair(input));
    }
}

#[test]
fn test_to_tsv_pair() {
    assert_eq!(Some(("xx", "yy")), to_tsv_pair("xx\tyy"));
    assert_eq!(Some(("xx", "yy")), to_tsv_pair("  xx\tyy  \n"));
    assert_eq!(Some(("xx", "yy")), to_tsv_pair(" \t xx\tyy \t "));
}

#[test]
fn test_to_tsv_pair_splits_at_first_tabulator() {
    assert_eq!(Some(("a b", "c\td")), to_tsv_pair("a b \t c\td"));
    assert_eq!(Some(("a", "\u{259}\u{2c8}b")), to_tsv_pair("\u{a0}a\t\u{259}\u{2c8}b\u{3000}"));
    assert_eq!(None, to_tsv_pair("a b"));
}

#[test]
fn test_is_blank() {
    assert!(is_blank(""));
    assert!(is_blank(" \t\r\n"));
    assert!(!is_blank(" x "));
    assert!(!is_blank("xx\t \t "));
}

#[test]
fn test_multimap_empty() {
    let empty: Vec<Vec<usize>> = Vec::new();
    assert_eq!(empty, filled(&[]));
}

#[test]
fn test_multimap_single_values() {
    assert_eq!(vec![vec![2], vec![4]], filled(&[("1", 2), ("3", 4)]));
}

#[test]
fn test_multimap_many_values() {
    assert_eq!(
        vec![vec![2, 5, 2], vec![4, 6]],
        filled(&[("1", 2), ("3", 4), ("1", 5), ("1", 2), ("3", 6)])
    );
}

#[test]
fn test_multimap_sizes() {
    let mut map = Buckets::<usize>::new();
    for (k, v) in [("b", 1), ("a", 2), ("b", 3)] {
        map.mm_insert(k.to_string(), v);
    }
    assert_eq!(vec![2, 1], map.sizes());
}

#[test]
fn test_split_whitespace() {
    let empty: Vec<String> = Vec::new();
    assert_eq!(empty, split_whitespace(""));
    assert_eq!(empty, split_whitespace(" \t "));
    assert_eq!(vec!["aa", "bb", "cc"], split_whitespace("aa bb cc"));
    assert_eq!(vec!["bb", "b"], split_whitespace(" bb \t b\r"));
    assert_eq!(vec!["a\u{200b}b", "c"], split_whitespace("a\u{200b}b\u{2003}c"));
    for s in ["", " a  b ", "x", "\u{a0}\u{e9} \u{3000}z\n"] {
        let expected: Vec<String> = s.split_whitespace().map(String::from).collect();
        assert_eq!(expected, split_whitespace(s));
    }
}

#[test]
fn test_str_lines() {
    let empty: Vec<String> = Vec::new();
    assert_eq!(empty, str_lines(""));
    assert_eq!(vec!["", ""], str_lines("\n\n"));
    assert_eq!(vec!["xx \tyy", "z", "", "zz"], str_lines("xx \tyy\nz\n\nzz"));
}

#[test]
fn test_str_lines_carriage_return() {
    assert_eq!(vec!["a", "b"], str_lines("a\r\nb\r\n"));
    assert_eq!(vec!["a\r"], str_lines("a\r"));
    assert_eq!(vec!["a\r", "\rb", "c\rd"], str_lines("a\r\r\n\rb\nc\rd"));
    assert_eq!(vec!["\r"], str_lines("\r"));
    assert_eq!(vec![""], str_lines("\r\n"));
    for s in ["", "\n", "a", "a\n", "a\r\n\r\nb", "\r\r", "x\r\ny\r", "\n\r\n\r"] {
        let expected: Vec<String> = s.lines().map(String::from).collect();
        assert_eq!(expected, str_lines(s));
    }
}

#[test]
fn test_trim() {
    assert_eq!("", trim(""));
    assert_eq!("", trim(" \t\n"));
    assert_eq!("a b", trim("\u{a0} a b\r\n"));
    for s in ["x", " x", "x ", "\t\u{3000}\u{e9} y\u{2003}"] {
        assert_eq!(s.trim(), trim(s));
    }
}

#[test]
fn test_tsv_line() {
    assert_eq!(Some(String::from("test\tt\u{25b}st")), tsv_line("test", "t\u{25b}st"));
    assert_eq!(None, tsv_line("test", ""));
    assert_eq!(Some(("test", "t\u{25b}st")), to_tsv_pair(&tsv_line("test", "t\u{25b}st").unwrap()));
}

#[test]
fn test_dedup() {
    let empty: Vec<usize> = Vec::new();
    assert_eq!(empty, dedup(&vec![]));
    assert_eq!(vec![1], dedup(&vec![1]));
    assert_eq!(vec![1, 2, 3], dedup(&vec![1, 2, 3]));
    assert_eq!(vec![1, 2, 1, 3, 2, 1], dedup(&vec![1, 1, 1, 2, 2, 1, 3, 2, 1, 1]));
}

#[test]
fn test_group_less() {
    let words = |g: &[&str]| -> Vec<String> { g.iter().map(|w| w.to_string()).collect() };
    assert!(group_less(&words(&["a", "b"]), &words(&["a", "c"])));
    assert!(!group_less(&words(&["a", "c"]), &words(&["a", "b"])));
    assert!(!group_less(&words(&["a", "b"]), &words(&["a", "b"])));
    assert!(group_less(&words(&["a", "b"]), &words(&["a", "b", "c"])));
    assert!(!group_less(&words(&["a", "b", "c"]), &words(&["a", "b"])));
    assert!(group_less(&words(&["a", "z"]), &words(&["b", "c"])));
    assert!(group_less(&words(&[]), &words(&["a"])));
    assert!(!group_less(&words(&[]), &words(&[])));
    assert!(group_less(&words(&["a", "b"]), &words(&["a", "ba"])));
}
