use agentwire::text::chars_of;
use agentwire::text::decimal_string;
use agentwire::text::find_char;
use agentwire::text::find_pattern;
use agentwire::text::is_whitespace;
use agentwire::text::matches_at;
use agentwire::text::push_decimal;
use agentwire::text::trimmed;

#[test]
fn white_space_is_what_the_standard_library_says() {
    let mut c = 0u32;
    while c <= 0x10FFFF {
        if let Some(ch) = char::from_u32(c) {
            assert_eq!(is_whitespace(ch), ch.is_whitespace(), "U+{:04X}", c);
        }
        c += 1;
    }
}

#[test]
fn trimming_is_what_the_standard_library_does() {
    let samples = [
        "",
        " ",
        "a",
        "  a",
        "a  ",
        "  a b  ",
        "\t\n a \r\n",
        "\u{3000}a\u{2003}",
        "\u{a0}\u{85}x\u{1680}",
        "   \n\t  ",
        "é",
        " → ",
    ];
    for text in samples {
        assert_eq!(trimmed(text), text.trim(), "{:?}", text);
    }
}

#[test]
fn chars_of_counts_characters_not_bytes() {
    assert_eq!(chars_of("").len(), 0);
    assert_eq!(chars_of("abc"), vec!['a', 'b', 'c']);
    assert_eq!(chars_of("a→é"), vec!['a', '→', 'é']);
}

#[test]
fn find_char_gives_the_first_index() {
    let chars: Vec<char> = "a=b=c".chars().collect();
    assert_eq!(find_char(&chars, '=', 0), Some(1));
    assert_eq!(find_char(&chars, '=', 1), Some(1));
    assert_eq!(find_char(&chars, '=', 2), Some(3));
    assert_eq!(find_char(&chars, '=', 4), None);
    assert_eq!(find_char(&chars, 'z', 0), None);
    assert_eq!(find_char(&chars, 'a', 9), None);
}

#[test]
fn find_pattern_gives_the_first_occurrence() {
    let chars: Vec<char> = "xx</a>yy</a>".chars().collect();
    let tag: Vec<char> = "</a>".chars().collect();
    assert_eq!(find_pattern(&chars, &tag, 0), Some(2));
    assert_eq!(find_pattern(&chars, &tag, 3), Some(8));
    assert_eq!(find_pattern(&chars, &tag, 9), None);
    let long: Vec<char> = "xx</a>yy</a>zz".chars().collect();
    assert_eq!(find_pattern(&tag, &long, 0), None);
    assert!(matches_at(&chars, &tag, 8));
    assert!(!matches_at(&chars, &tag, 7));
    assert!(!matches_at(&chars, &tag, 9));
    assert!(!matches_at(&chars, &tag, 100));
}

#[test]
fn decimal_numerals() {
    assert_eq!(decimal_string(0), "0");
    assert_eq!(decimal_string(7), "7");
    assert_eq!(decimal_string(10), "10");
    assert_eq!(decimal_string(109), "109");
    assert_eq!(decimal_string(1234567890), "1234567890");
    assert_eq!(decimal_string(usize::MAX), usize::MAX.to_string());
    for n in 0..2000usize {
        assert_eq!(decimal_string(n), n.to_string());
    }
    let mut out = String::from("n=");
    push_decimal(&mut out, 42);
    assert_eq!(out, "n=42");
}
