use find_similar_words::phoneme::normalize_phonemes;

#[test]
fn test_normalize_phonemes_empty() {
    assert_eq!("", normalize_phonemes(""));
}

#[test]
fn test_normalize_phonemes_blanks() {
    assert_eq!("", normalize_phonemes("        "));
}

#[test]
fn test_normalize_phonemes_stress_marks() {
    assert_eq!(
        "abriviej\u{283}anz",
        normalize_phonemes("\u{28c}b\u{279}i\u{2cc}viej\u{2c8}\u{283}\u{28c}nz")
    );
}

#[test]
fn test_normalize_phonemes_spaced() {
    assert_eq!(
        "manitorink",
        normalize_phonemes("m \u{28c} n\u{2b2} \u{26a} t o r\u{2b2} \u{26a} n k")
    );
}

#[test]
fn test_normalize_phonemes_runs() {
    assert_eq!("aba", normalize_phonemes("aabbbaa"));
    // different allophones of one phoneme in a row are one run
    assert_eq!("a", normalize_phonemes("a\u{e4}\u{250}\u{251}\u{28c}"));
    // a dropped mark between two equal symbols does not keep them apart
    assert_eq!("t", normalize_phonemes("t\u{2d0}t"));
    assert_eq!("t", normalize_phonemes("t t"));
}

#[test]
fn test_normalize_phonemes_bounds_of_dropped_range() {
    assert_eq!("\u{2af}", normalize_phonemes("\u{2af}"));
    assert_eq!("", normalize_phonemes("\u{2b0}"));
    assert_eq!("", normalize_phonemes("\u{36f}"));
    assert_eq!("\u{370}", normalize_phonemes("\u{370}"));
}

#[test]
fn test_normalize_phonemes_white_space() {
    assert_eq!("ab", normalize_phonemes("a\t\n\u{b}\u{c}\r \u{85}\u{a0}\u{1680}\u{2000}\u{200a}\u{2028}\u{2029}\u{202f}\u{205f}\u{3000}b"));
    // not white space: zero width space, the code points next to the ranges
    assert_eq!("\u{200b}", normalize_phonemes("\u{200b}"));
    assert_eq!("\u{8}", normalize_phonemes("\u{8}"));
    assert_eq!("\u{e}", normalize_phonemes("\u{e}"));
    assert_eq!("\u{180e}", normalize_phonemes("\u{180e}"));
}

#[test]
fn test_normalize_phonemes_table() {
    assert_eq!("e", normalize_phonemes("\u{e6}"));
    assert_eq!("i", normalize_phonemes("\u{268}"));
    assert_eq!("o", normalize_phonemes("\u{28a}"));
    assert_eq!("u", normalize_phonemes("\u{289}"));
    assert_eq!("y", normalize_phonemes("\u{f8}"));
    assert_eq!("\u{258}", normalize_phonemes("\u{259}"));
    assert_eq!("k", normalize_phonemes("q"));
    assert_eq!("t", normalize_phonemes("c"));
    assert_eq!("x", normalize_phonemes("h"));
    assert_eq!("\u{3b8}", normalize_phonemes("\u{f0}"));
    assert_eq!("\u{283}", normalize_phonemes("\u{e7}"));
    assert_eq!("\u{292}", normalize_phonemes("\u{290}"));
    assert_eq!("\u{270}", normalize_phonemes("\u{295}"));
    assert_eq!("zsw", normalize_phonemes("zsw"));
}

#[test]
fn test_normalize_phonemes_idempotent() {
    for s in [
        "",
        "   ",
        "\u{28c}b\u{279}i\u{2cc}viej\u{2c8}\u{283}\u{28c}nz",
        "m \u{28c} n\u{2b2} \u{26a} t o r\u{2b2} \u{26a} n k",
        "aabbbaa qch",
        "t\u{2d0}t",
    ] {
        let once = normalize_phonemes(s);
        assert_eq!(once, normalize_phonemes(&once));
    }
}
