use find_similar_words::dictionary::{Dictionary, Word};

fn entries(dict: &Dictionary) -> Vec<(String, String)> {
    dict.iter().map(|w| (w.word.clone(), w.phonemes.clone())).collect()
}

fn pairs(items: &[(&str, &str)]) -> Vec<(String, String)> {
    items.iter().map(|(w, p)| (w.to_string(), p.to_string())).collect()
}

fn found(items: &[(&str, &str)], search: (&str, &str), max_distance: usize) -> Vec<String> {
    let dict = Dictionary::from_entries(items);
    let search = Word::new(search.0, search.1);
    let mut it = dict.find_similar(&search, max_distance);
    let mut res = Vec::new();
    while let Some(w) = it.next() {
        res.push(w.word.clone());
    }
    assert!(it.next().is_none());
    res
}

fn similar(word: (&str, &str), word2: (&str, &str), max_distance: usize) -> bool {
    let w = Word::new(word.0, word.1);
    let w2 = Word::new(word2.0, word2.1);
    w.is_similar(&w2, max_distance)
}

#[test]
fn test_word_init() {
    let w = Word::new("word", "phonemes");
    assert_eq!("word", w.word);
    assert_eq!("phonemes", w.phonemes);
}

#[test]
fn test_word_to_string() {
    assert_eq!("word", Word::new("word", "phonemes").to_string());
}

#[test]
fn test_word_eq() {
    assert!(Word::new("w", "p") == Word::new("w", "p"));
    assert!(Word::new("w", "p") != Word::new("w", "q"));
    assert!(Word::new("w", "p") != Word::new("v", "p"));
    let w = Word::new("w", "p");
    assert!(w.clone() == w);
}

#[test]
fn test_word_is_similar_same_phonemes() {
    assert_eq!(true, similar(("w", "p"), ("w2", "p"), 0));
}

#[test]
fn test_word_is_similar_longer_zero() {
    assert_eq!(false, similar(("w", "p"), ("w2", "p2"), 0));
}

#[test]
fn test_word_is_similar_longer_one() {
    assert_eq!(true, similar(("w", "p"), ("w2", "p2"), 1));
}

#[test]
fn test_word_is_similar_different_one() {
    assert_eq!(false, similar(("w", "p"), ("w2", "q2"), 1));
}

#[test]
fn test_word_is_similar_different_two() {
    assert_eq!(true, similar(("w", "p"), ("w2", "q2"), 2));
}

#[test]
fn test_word_is_similar_equal_length_over_bound() {
    // the lengths agree, the distance is 3
    assert_eq!(false, similar(("w", "abc"), ("v", "xyz"), 2));
    assert_eq!(true, similar(("w", "abc"), ("v", "xyz"), 3));
    assert_eq!(false, similar(("w", "kitten"), ("v", "sitting"), 2));
    assert_eq!(true, similar(("w", "kitten"), ("v", "sitting"), 3));
}

#[test]
fn test_word_is_similar_counts_characters() {
    // one character of two bytes against one of one byte
    assert_eq!(true, similar(("w", "\u{259}"), ("v", "a"), 1));
    assert_eq!(false, similar(("w", "\u{259}\u{259}"), ("v", ""), 1));
    assert_eq!(true, similar(("w", "\u{259}\u{259}"), ("v", ""), 2));
}

#[test]
fn test_word_normalize_phonemes() {
    let mut w = Word::new("word", "m \u{28c} n\u{2b2}");
    w.normalize_phonemes();
    assert_eq!("word", w.word);
    assert_eq!("man", w.phonemes);
}

#[test]
fn test_dict_init() {
    let dict = Dictionary::new();
    assert_eq!(0, dict.iter().count());
}

#[test]
fn test_dict_default() {
    let dict = Dictionary::default();
    assert_eq!(0, dict.len());
    assert!(dict.get(0).is_none());
}

#[test]
fn test_dict_add() {
    let items = [("w", "p"), ("w2", "p2")];
    let mut dict = Dictionary::new();
    for (w, p) in items {
        dict.add(w, p);
    }
    assert_eq!(pairs(&items), entries(&dict));
    assert_eq!(2, dict.len());
    assert_eq!("w2", dict.get(1).unwrap().word);
    assert!(dict.get(2).is_none());
}

#[test]
fn test_dict_add_keeps_duplicates() {
    let mut dict = Dictionary::new();
    dict.add("w", "p");
    dict.add("w", "p");
    assert_eq!(pairs(&[("w", "p"), ("w", "p")]), entries(&dict));
}

#[test]
fn test_dict_extend() {
    let items = [("w", "p"), ("w2", "p2")];
    let mut dict = Dictionary::new();
    dict.extend(&items);
    assert_eq!(pairs(&items), entries(&dict));
    dict.extend(&[("w3", "p3")]);
    assert_eq!(pairs(&[("w", "p"), ("w2", "p2"), ("w3", "p3")]), entries(&dict));
}

#[test]
fn test_dict_from_entries() {
    let items = [("w", "p"), ("w2", "p2")];
    let dict = Dictionary::from_entries(&items);
    assert_eq!(pairs(&items), entries(&dict));
}

#[test]
fn test_dict_clone() {
    let items = [("w", "p"), ("w2", "p2")];
    let dict = Dictionary::from_entries(&items);
    assert_eq!(pairs(&items), entries(&dict.clone()));
}

#[test]
fn test_dict_into_iter() {
    let items = [("w", "p"), ("w2", "p2")];
    let mut dict = Dictionary::new();
    for (w, p) in items {
        dict.add(w, p);
    }
    assert_eq!(items.len(), dict.iter().count());
    let dict_items = dict
        .into_iter()
        .map(|w| (w.word, w.phonemes))
        .collect::<Vec<(String, String)>>();
    assert_eq!(pairs(&items), dict_items);
}

#[test]
fn test_dict_normalize() {
    let mut dict = Dictionary::from_entries(&[("a", "\u{28c}b\u{279}i\u{2cc}viej\u{2c8}\u{283}\u{28c}nz"), ("b", " t t ")]);
    dict.normalize();
    assert_eq!(pairs(&[("a", "abriviej\u{283}anz"), ("b", "t")]), entries(&dict));
}

#[test]
fn test_dict_find_similar_none() {
    let empty: Vec<String> = Vec::new();
    assert_eq!(empty, found(&[("w", "p"), ("w2", "p2")], ("x", "y"), 0));
}

#[test]
fn test_dict_find_similar_one() {
    assert_eq!(vec!["w"], found(&[("w", "p"), ("w2", "p2")], ("x", "y"), 1));
}

#[test]
fn test_dict_find_similar_second() {
    assert_eq!(vec!["w2"], found(&[("w", "p1"), ("w2", "p2")], ("x", "2"), 1));
}

#[test]
fn test_dict_find_similar_both() {
    assert_eq!(vec!["w", "w2"], found(&[("w", "p"), ("w2", "p2")], ("x", "p"), 1));
}

#[test]
fn test_dict_find_similar_empty_dictionary() {
    let empty: Vec<String> = Vec::new();
    assert_eq!(empty, found(&[], ("x", "p"), 3));
}

#[test]
fn test_dict_find_similar_resumes_behind_match() {
    let dict = Dictionary::from_entries(&[("a", "p"), ("b", "zzz"), ("c", "p"), ("d", "p")]);
    let query = Word::new("x", "p");
    let mut it = dict.find_similar(&query, 0);
    assert_eq!("a", it.next().unwrap().word);
    assert_eq!("c", it.next().unwrap().word);
    assert_eq!("d", it.next().unwrap().word);
    assert!(it.next().is_none());
    assert!(it.next().is_none());
    // a new search starts at the first word again
    let mut again = dict.find_similar(&query, 0);
    assert_eq!("a", again.next().unwrap().word);
}

fn reference_distance(a: &str, b: &str) -> usize {
    let a: Vec<char> = a.chars().collect();
    let b: Vec<char> = b.chars().collect();
    let mut table = vec![vec![0usize; b.len() + 1]; a.len() + 1];
    for i in 0..=a.len() {
        for j in 0..=b.len() {
            table[i][j] = if i == 0 {
                j
            } else if j == 0 {
                i
            } else {
                let replace = table[i - 1][j - 1] + if a[i - 1] == b[j - 1] { 0 } else { 1 };
                replace.min(table[i - 1][j] + 1).min(table[i][j - 1] + 1)
            };
        }
    }
    table[a.len()][b.len()]
}

#[test]
fn test_word_is_similar_agrees_with_distance() {
    let phonemes = [
        "", "a", "b", "ab", "ba", "abc", "xyz", "kitten", "sitting", "flaw", "lawn",
        "\u{259}b\u{283}", "\u{283}b\u{259}", "aaaa", "aaab", "baaa", "m\u{28c}n\u{26a}t",
    ];
    assert_eq!(3, reference_distance("kitten", "sitting"));
    assert_eq!(2, reference_distance("flaw", "lawn"));
    for p in phonemes {
        for q in phonemes {
            let distance = reference_distance(p, q);
            for max_distance in 0..9 {
                assert_eq!(
                    distance <= max_distance,
                    similar(("w", p), ("v", q), max_distance),
                    "{:?} {:?} {}",
                    p,
                    q,
                    max_distance
                );
            }
        }
    }
}
