use find_similar_words::dictionary::Dictionary;
use find_similar_words::word_groups::WordGroups;

fn strings(groups: &[&[&str]]) -> Vec<Vec<String>> {
    groups.iter().map(|g| g.iter().map(|w| w.to_string()).collect()).collect()
}

fn groups_of(groups: &WordGroups) -> Vec<Vec<String>> {
    groups.iter().cloned().collect()
}

fn from_iter(input: &[&[&str]]) -> Vec<Vec<String>> {
    groups_of(&WordGroups::from_iter(strings(input)))
}

fn from_dict(entries: &[(&str, &str)]) -> Vec<Vec<String>> {
    groups_of(&WordGroups::from_dict(Dictionary::from_entries(entries)))
}

fn from_dicts(entries: &[(&str, &str)], entries2: &[(&str, &str)]) -> Vec<Vec<String>> {
    groups_of(&WordGroups::from_dicts(
        Dictionary::from_entries(entries),
        Dictionary::from_entries(entries2),
    ))
}

#[test]
fn test_word_groups_init() {
    let groups = WordGroups::new();
    assert_eq!(0, groups.len());
    assert!(groups.is_empty());
    assert_eq!("", groups.to_string());
    assert!(WordGroups::default().is_empty());
}

#[test]
fn test_word_groups_from_iter_empty() {
    assert_eq!(strings(&[]), from_iter(&[]));
}

#[test]
fn test_word_groups_from_iter_sorts() {
    assert_eq!(strings(&[&["1", "2"]]), from_iter(&[&["2", "1"]]));
}

#[test]
fn test_word_groups_from_iter_drops_single() {
    assert_eq!(strings(&[]), from_iter(&[&["1", "1"]]));
    assert_eq!(strings(&[]), from_iter(&[&[]]));
    assert_eq!(strings(&[]), from_iter(&[&["1"]]));
}

#[test]
fn test_word_groups_from_iter_many() {
    assert_eq!(
        strings(&[&["1", "5", "6"], &["2", "4"]]),
        from_iter(&[&["4", "2", "2"], &["3", "3", "3"], &["5", "6", "1", "5"]])
    );
}

#[test]
fn test_word_groups_from_iter_equal_first_words() {
    let expected = strings(&[&["a", "b"], &["a", "c"], &["b", "c"]]);
    assert_eq!(expected, from_iter(&[&["b", "c"], &["c", "a"], &["b", "a"]]));
    assert_eq!(expected, from_iter(&[&["b", "a"], &["c", "a"], &["c", "b"]]));
    assert_eq!(expected, from_iter(&[&["a", "c"], &["b", "c"], &["a", "b"]]));
    assert_eq!(
        strings(&[&["a", "b"], &["a", "b", "c"], &["a", "c"]]),
        from_iter(&[&["c", "a"], &["c", "b", "a"], &["b", "a"]])
    );
    assert_eq!(
        strings(&[&["a", "b"], &["a", "b"]]),
        from_iter(&[&["b", "a"], &["a", "b", "a"]])
    );
}

#[test]
fn test_word_groups_from_iter_orders_by_code_point() {
    assert_eq!(
        strings(&[&["", "a"], &["B", "a", "ab", "b", "\u{e9}"]]),
        from_iter(&[&["b", "ab", "\u{e9}", "a", "B"], &["a", ""]])
    );
}

#[test]
fn test_word_groups_len_and_iter() {
    let groups = WordGroups::from_iter(strings(&[&["b", "a"], &["d", "c"]]));
    assert_eq!(2, groups.len());
    assert!(!groups.is_empty());
    assert_eq!(strings(&[&["a", "b"], &["c", "d"]]), groups_of(&groups));
    assert_eq!(strings(&[&["a", "b"], &["c", "d"]]), groups_of(&groups.clone()));
    let owned: Vec<Vec<String>> = groups.into_iter().collect();
    assert_eq!(strings(&[&["a", "b"], &["c", "d"]]), owned);
}

#[test]
fn test_word_groups_to_string() {
    let groups = WordGroups::from_iter(strings(&[&["cc", "bb", "aa"], &["b", "a"]]));
    assert_eq!("a b\naa bb cc\n", groups.to_string());
}

#[test]
fn test_word_groups_from_dict_empty() {
    assert_eq!(strings(&[]), from_dict(&[]));
}

#[test]
fn test_word_groups_from_dict_singles() {
    assert_eq!(strings(&[]), from_dict(&[("w", "p"), ("w1", "p1")]));
}

#[test]
fn test_word_groups_from_dict_same_word_twice() {
    assert_eq!(strings(&[]), from_dict(&[("w", "p"), ("w", "p")]));
}

#[test]
fn test_word_groups_from_dict_one_group() {
    assert_eq!(strings(&[&["a", "c"]]), from_dict(&[("c", "p"), ("a", "p"), ("d", "q")]));
}

#[test]
fn test_word_groups_from_dict_two_groups() {
    assert_eq!(
        strings(&[&["a", "d"], &["b", "c"]]),
        from_dict(&[("c", "p"), ("b", "p"), ("d", "q"), ("a", "q")])
    );
}

#[test]
fn test_word_groups_from_dict_scenario() {
    let dict = Dictionary::from_entries(&[("cc", "a"), ("bb", "b"), ("cc", "a"), ("aa", "a")]);
    let groups = WordGroups::from_dict(dict);
    assert_eq!(strings(&[&["aa", "cc"]]), groups_of(&groups));
    assert_eq!("aa cc\n", groups.to_string());
}

#[test]
fn test_word_groups_from_dict_groups_are_sorted_sets() {
    let groups = from_dict(&[
        ("z", "p"), ("y", "q"), ("x", "p"), ("z", "p"), ("w", "q"), ("v", "r"), ("x", "p"),
    ]);
    assert_eq!(strings(&[&["w", "y"], &["x", "z"]]), groups);
    for g in groups.iter() {
        assert!(g.len() >= 2);
        for pair in g.windows(2) {
            assert!(pair[0] < pair[1]);
        }
    }
}

#[test]
fn test_word_groups_from_dicts_empty() {
    assert_eq!(strings(&[]), from_dicts(&[], &[]));
}

#[test]
fn test_word_groups_from_dicts_nothing_shared() {
    assert_eq!(strings(&[]), from_dicts(&[("w", "p")], &[("w1", "p1")]));
}

#[test]
fn test_word_groups_from_dicts_group_of_one_dictionary() {
    assert_eq!(strings(&[]), from_dicts(&[("w", "p"), ("w1", "p")], &[("w1", "p1")]));
    assert_eq!(strings(&[]), from_dicts(&[("w1", "p1")], &[("w", "p"), ("w1", "p")]));
}

#[test]
fn test_word_groups_from_dicts_same_word() {
    assert_eq!(strings(&[]), from_dicts(&[("w", "p")], &[("w", "p")]));
}

#[test]
fn test_word_groups_from_dicts_one_group() {
    assert_eq!(strings(&[&["w", "w1"]]), from_dicts(&[("w", "p")], &[("w1", "p")]));
}

#[test]
fn test_word_groups_from_dicts_two_groups() {
    assert_eq!(
        strings(&[&["a", "d"], &["b", "c"]]),
        from_dicts(&[("c", "p"), ("d", "q")], &[("b", "p"), ("a", "q")])
    );
}

#[test]
fn test_word_groups_from_dicts_takes_all_words_of_a_shared_transcription() {
    assert_eq!(
        strings(&[&["ab", "bb"]]),
        from_dicts(
            &[("cc", "a"), ("bb", "b"), ("cc", "a"), ("aa", "a")],
            &[("cc", "x"), ("ab", "b")]
        )
    );
    assert_eq!(
        strings(&[&["a", "b", "c", "d"]]),
        from_dicts(&[("b", "p"), ("a", "p")], &[("d", "p"), ("c", "p"), ("e", "q"), ("f", "q")])
    );
}

#[test]
fn test_word_groups_from_iter_order_of_candidates_does_not_count() {
    let expected = strings(&[&["1", "5", "6"], &["2", "4"], &["3", "7"]]);
    assert_eq!(expected, from_iter(&[&["4", "2"], &["7", "3"], &["5", "6", "1"]]));
    assert_eq!(expected, from_iter(&[&["6", "1", "5", "1"], &["2", "4", "4"], &["3", "7"]]));
    assert_eq!(expected, from_iter(&[&["3", "7"], &["1", "6", "5"], &["9"], &["4", "2"]]));
}

#[test]
fn test_word_groups_from_dict_order_of_entries_does_not_count() {
    let expected = strings(&[&["a", "d"], &["b", "c"]]);
    assert_eq!(expected, from_dict(&[("c", "p"), ("b", "p"), ("d", "q"), ("a", "q")]));
    assert_eq!(expected, from_dict(&[("a", "q"), ("d", "q"), ("b", "p"), ("c", "p")]));
    assert_eq!(expected, from_dict(&[("d", "q"), ("c", "p"), ("a", "q"), ("b", "p"), ("c", "p")]));
}

#[test]
fn test_word_groups_from_dicts_order_of_entries_does_not_count() {
    let expected = strings(&[&["a", "d"], &["b", "c"]]);
    assert_eq!(expected, from_dicts(&[("c", "p"), ("d", "q")], &[("b", "p"), ("a", "q")]));
    assert_eq!(expected, from_dicts(&[("d", "q"), ("c", "p")], &[("a", "q"), ("b", "p"), ("a", "q")]));
}

#[test]
fn test_word_groups_from_dict_word_with_two_transcriptions() {
    let expected = strings(&[&["a", "b"], &["a", "c"]]);
    assert_eq!(expected, from_dict(&[("a", "p"), ("b", "p"), ("a", "q"), ("c", "q")]));
    assert_eq!(expected, from_dict(&[("a", "q"), ("c", "q"), ("a", "p"), ("b", "p")]));
    assert_eq!(expected, from_dict(&[("c", "q"), ("b", "p"), ("a", "q"), ("a", "p")]));
}

#[test]
fn test_word_groups_from_dicts_word_with_two_transcriptions() {
    let expected = strings(&[&["a", "b"], &["a", "c"]]);
    assert_eq!(expected, from_dicts(&[("a", "p"), ("a", "q")], &[("b", "p"), ("c", "q")]));
    assert_eq!(expected, from_dicts(&[("a", "q"), ("a", "p")], &[("b", "p"), ("c", "q")]));
    assert_eq!(expected, from_dicts(&[("a", "q"), ("a", "p")], &[("c", "q"), ("b", "p")]));
}

#[test]
fn test_word_groups_to_string_does_not_depend_on_order() {
    let one = WordGroups::from_iter(strings(&[&["a", "c"], &["b", "a"], &["x", "d", "d"]]));
    let other = WordGroups::from_iter(strings(&[&["d", "x"], &["a", "b"], &["c", "a", "c"]]));
    assert_eq!("a b\na c\nd x\n", one.to_string());
    assert_eq!(one.to_string(), other.to_string());
}
