use find_similar_words::macros::count;

#[test]
fn test_count() {
    assert_eq!(0, count::<i32>(&[]));
    assert_eq!(1, count(&[0]));
    assert_eq!(2, count(&[0, 1]));
    assert_eq!(3, count(&[0, 1, 2]));
    assert_eq!(4, count(&[0, 1, 2, 3]));
}
