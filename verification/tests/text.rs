use seastar::text::{char_is_whitespace, chars_of, eq_ignore_ascii_case, split_whitespace};

#[test]
fn split_whitespace_drops_empty_pieces() {
    assert_eq!(split_whitespace("  -O2   -Wall\t-g\n"), vec!["-O2", "-Wall", "-g"]);
}

#[test]
fn split_whitespace_of_empty_and_blank_text_is_empty() {
    assert!(split_whitespace("").is_empty());
    assert!(split_whitespace(" \t \n").is_empty());
}

#[test]
fn split_whitespace_keeps_a_single_word() {
    assert_eq!(split_whitespace("-lm"), vec!["-lm"]);
}

#[test]
fn split_whitespace_agrees_with_std() {
    let samples = [
        "a b",
        " a  b ",
        "-I/usr/include -DNAME=\"x\"",
        "a\u{a0}b\u{2003}c\u{3000}d",
        "tab\tsep\u{b}x\u{c}y\rz",
        "no-break\u{202f}narrow \u{205f}math \u{1680}ogham \u{85}nel",
        "\u{200b}zero-width is no space",
    ];
    for s in samples {
        let expected: Vec<String> = s.split_whitespace().map(|w| w.to_string()).collect();
        assert_eq!(split_whitespace(s), expected, "on {:?}", s);
    }
}

#[test]
fn char_is_whitespace_agrees_with_std_on_every_char() {
    let mut n: u32 = 0;
    while n <= 0x10ffff {
        if let Some(c) = char::from_u32(n) {
            assert_eq!(char_is_whitespace(c), c.is_whitespace(), "on U+{:04X}", n);
        }
        n += 1;
    }
}

#[test]
fn eq_ignore_ascii_case_folds_ascii_letters_only() {
    assert!(eq_ignore_ascii_case("cpp", "CPP"));
    assert!(eq_ignore_ascii_case("CxX", "cXx"));
    assert!(eq_ignore_ascii_case("", ""));
    assert!(!eq_ignore_ascii_case("c", "cc"));
    assert!(!eq_ignore_ascii_case("c", "d"));
    assert!(!eq_ignore_ascii_case("é", "É"));
    assert!(!eq_ignore_ascii_case("@", "`"));
    assert!(!eq_ignore_ascii_case("[", "{"));
}

#[test]
fn chars_of_lists_the_characters() {
    assert_eq!(chars_of("a.é"), vec!['a', '.', 'é']);
    assert!(chars_of("").is_empty());
}
