use unit_calc::text::{chars_of, count_of, find, same_text, slice_of, trim_bounds, white_space};

fn chars(s: &str) -> Vec<char> {
    s.chars().collect()
}

fn trimmed(s: &str) -> String {
    let text = chars(s);
    let (start, end) = trim_bounds(&text);
    text[start..end].iter().collect()
}

#[test]
fn white_space_is_what_std_trims() {
    let mut code: u32 = 0;
    while code <= 0x10ffff {
        if let Some(c) = char::from_u32(code) {
            assert_eq!(white_space(c), c.is_whitespace(), "{:x}", code);
        }
        code += 1;
    }
}

#[test]
fn trims_both_ends() {
    for s in [
        "",
        " ",
        "   ",
        "a",
        " a",
        "a ",
        "  a b  ",
        "\t x + 1 \n",
        "\u{a0}5 kg\u{3000}",
        " \u{2003} ",
        "a  ",
        "  ab",
    ] {
        assert_eq!(trimmed(s), s.trim(), "{:?}", s);
    }
}

#[test]
fn trim_bounds_of_blank_text_are_empty() {
    let (start, end) = trim_bounds(&chars("  \t "));
    assert_eq!(start, end);
    let (start, end) = trim_bounds(&chars(" ab "));
    assert_eq!((start, end), (1, 3));
}

#[test]
fn finds_the_first() {
    assert_eq!(find(&chars("a=b=c"), '='), 1);
    assert_eq!(find(&chars("abc"), '='), 3);
    assert_eq!(find(&chars(""), '='), 0);
    assert_eq!(find(&chars("=="), '='), 0);
}

#[test]
fn counts_occurrences() {
    assert_eq!(count_of(&chars("a=b=c"), '='), 2);
    assert_eq!(count_of(&chars("abc"), '='), 0);
    assert_eq!(count_of(&chars("==="), '='), 3);
    assert_eq!(count_of(&chars(""), '='), 0);
}

#[test]
fn characters_of_a_string() {
    assert_eq!(chars_of("5 kg"), vec!['5', ' ', 'k', 'g']);
    assert_eq!(chars_of(""), Vec::<char>::new());
    assert_eq!(chars_of("né\u{1f600}x"), vec!['n', 'é', '\u{1f600}', 'x']);
}

#[test]
fn slices_and_equal_texts() {
    let text = chars("hello");
    assert_eq!(slice_of(&text, 1, 3), vec!['e', 'l']);
    assert_eq!(slice_of(&text, 2, 2), Vec::<char>::new());
    assert_eq!(slice_of(&text, 0, 5), text);
    assert!(same_text(&chars("abc"), &chars("abc")));
    assert!(!same_text(&chars("abc"), &chars("abd")));
    assert!(!same_text(&chars("abc"), &chars("ab")));
    assert!(same_text(&chars(""), &chars("")));
}
