use find_similar_words::iter::str_lines;
use find_similar_words::group_builder::merge;
use find_similar_words::word_groups::{GroupBuilder, WordGroups};

fn strings(groups: &[&[&str]]) -> Vec<Vec<String>> {
    groups.iter().map(|g| g.iter().map(|w| w.to_string()).collect()).collect()
}

fn built(input: &[(usize, &str)]) -> Vec<Vec<String>> {
    let mut builder = GroupBuilder::new();
    for (set, item) in input {
        builder.add(*set, *item);
    }
    let mut groups: Vec<Vec<String>> = builder
        .into_iter()
        .map(|mut v| {
            v.sort();
            v
        })
        .collect();
    groups.sort_by(|g, h| g[0].cmp(&h[0]));
    groups
}

fn merged(text: &str) -> String {
    merge(&str_lines(text)).to_string()
}

#[test]
fn test_group_builder_empty() {
    assert_eq!(strings(&[]), built(&[]));
    assert!(GroupBuilder::default().into_groups().is_empty());
}

#[test]
fn test_group_builder_same_pair_twice() {
    assert_eq!(strings(&[&["a"]]), built(&[(1, "a"), (1, "a")]));
}

#[test]
fn test_group_builder_one_group() {
    assert_eq!(strings(&[&["a", "b"]]), built(&[(1, "a"), (1, "b")]));
}

#[test]
fn test_group_builder_seen_again() {
    assert_eq!(
        strings(&[&["a", "b", "c"]]),
        built(&[(1, "a"), (1, "b"), (1, "c"), (2, "b"), (2, "a")])
    );
}

#[test]
fn test_group_builder_two_groups() {
    assert_eq!(
        strings(&[&["a", "b", "e"], &["c", "d"]]),
        built(&[(1, "a"), (1, "b"), (2, "d"), (2, "c"), (3, "e"), (3, "a")])
    );
}

#[test]
fn test_group_builder_all_in_one() {
    assert_eq!(
        strings(&[&["a", "b", "c", "d", "e"]]),
        built(&[(1, "a"), (1, "b"), (1, "c"), (2, "d"), (2, "c"), (3, "e"), (3, "a")])
    );
}

#[test]
fn test_group_builder_chain() {
    assert_eq!(strings(&[&["a", "b", "c"]]), built(&[(1, "a"), (1, "b"), (2, "b"), (2, "c")]));
}

#[test]
fn test_group_builder_member_moves_and_first_group_stays_tied() {
    // "a" leaves 1 for 2; what is seen under 1 later still hangs together with it
    assert_eq!(
        strings(&[&["a", "b", "c"], &["d"]]),
        built(&[(1, "a"), (2, "a"), (2, "b"), (1, "c"), (3, "d")])
    );
}

#[test]
fn test_group_builder_into_groups_order() {
    let mut builder = GroupBuilder::new();
    for (set, item) in [(7, "x"), (3, "y"), (7, "z"), (5, "y"), (5, "w")] {
        builder.add(set, item);
    }
    assert_eq!(strings(&[&["x", "z"], &["y", "w"]]), builder.into_groups());
}

#[test]
fn test_group_builder_extend() {
    let mut builder = GroupBuilder::new();
    builder.extend(0, &vec!["aa".to_string(), "bb".to_string(), "cc".to_string()]);
    builder.extend(1, &vec![]);
    builder.extend(2, &vec!["bb".to_string(), "b".to_string()]);
    builder.extend(3, &vec!["a".to_string(), "c".to_string()]);
    let groups = WordGroups::from_iter(builder.into_groups());
    assert_eq!("a c\naa b bb cc\n", groups.to_string());
}

#[test]
fn test_merge_empty() {
    assert_eq!("", merged(""));
    assert_eq!("", merged("\n \n"));
}

#[test]
fn test_merge_one_file() {
    assert_eq!("a c\naa b bb cc\n", merged("aa bb cc\n bb b\n a c\n"));
}

#[test]
fn test_merge_two_files() {
    let mut lines = str_lines("aa bb cc\n bb b\n a c\n");
    lines.extend(str_lines("d c e\nbb f\n"));
    assert_eq!("a c d e\naa b bb cc f\n", merge(&lines).to_string());
}

#[test]
fn test_merge_leaves_single_words_out() {
    assert_eq!("b c\n", merged("a\nb c\nd d\n"));
}

#[test]
fn test_merge_order_of_lines_does_not_count() {
    let expected = "a c d e\naa b bb cc f\n";
    for text in [
        "aa bb cc\nbb b\na c\nd c e\nbb f\n",
        "bb f\nd c e\na c\nbb b\naa bb cc\n",
        "a c\nbb f\naa bb cc\nd c e\nbb b\n",
        "c a\nf bb\ncc bb aa\ne c d\nb bb\nbb b\n",
    ] {
        assert_eq!(expected, merged(text));
    }
}

#[test]
fn test_group_builder_order_of_lines_does_not_count() {
    let lines: Vec<Vec<String>> = strings(&[
        &["aa", "bb", "cc"],
        &["bb", "b"],
        &["a", "c"],
        &["d", "c", "e"],
        &["bb", "f"],
        &["x"],
    ]);
    let mut one = GroupBuilder::new();
    for (id, line) in lines.iter().enumerate() {
        one.extend(id, line);
    }
    let mut other = GroupBuilder::new();
    for (id, line) in lines.iter().rev().enumerate() {
        other.extend(100 - 7 * id, line);
    }
    let mut sets_of_one: Vec<Vec<String>> = one.into_iter().collect();
    let mut sets_of_other: Vec<Vec<String>> = other.into_iter().collect();
    let groups = WordGroups::from_iter(sets_of_one.clone());
    assert_eq!("a c d e\naa b bb cc f\n", groups.to_string());
    assert_eq!(groups.to_string(), WordGroups::from_iter(sets_of_other.clone()).to_string());
    for sets in [&mut sets_of_one, &mut sets_of_other] {
        for set in sets.iter_mut() {
            set.sort();
        }
        sets.sort();
    }
    assert_eq!(sets_of_one, sets_of_other);
    assert_eq!(3, sets_of_one.len());
}
