use lispy::chars::{is_delimiter, is_whitespace};
use lispy::cursor::{before, split_first, trim_start};

#[test]
fn is_whitespace_agrees_with_the_standard_library() {
    for n in 0..=0x10ffffu32 {
        if let Some(c) = char::from_u32(n) {
            assert_eq!(is_whitespace(c), c.is_whitespace(), "code point {:#x}", n);
        }
    }
}

#[test]
fn is_whitespace_knows_the_common_characters() {
    for c in [' ', '\t', '\n', '\r', '\u{b}', '\u{c}', '\u{85}', '\u{a0}', '\u{3000}'] {
        assert!(is_whitespace(c));
    }
    for c in ['a', '(', ')', '\'', '0', '_', '\u{200b}', '\u{180e}', '\u{feff}', '越'] {
        assert!(!is_whitespace(c));
    }
}

#[test]
fn is_delimiter_is_white_space_parenthesis_or_quote() {
    for c in ['(', ')', '\'', ' ', '\n', '\t', '\u{2009}'] {
        assert!(is_delimiter(c));
    }
    for c in ['a', 'Z', '0', '"', '`', '[', ']', '{', '}', ',', ';', '-', 'λ'] {
        assert!(!is_delimiter(c));
    }
    for n in 0..=0x10ffffu32 {
        if let Some(c) = char::from_u32(n) {
            let expected = c.is_whitespace() || "(')".contains(c);
            assert_eq!(is_delimiter(c), expected, "code point {:#x}", n);
        }
    }
}

#[test]
fn split_first_takes_one_character() {
    assert_eq!(split_first("abc"), Some(('a', "bc")));
    assert_eq!(split_first("a"), Some(('a', "")));
    assert_eq!(split_first(" "), Some((' ', "")));
    assert_eq!(split_first(""), None);
}

#[test]
fn split_first_takes_a_whole_character_of_any_width() {
    assert_eq!(split_first("éa"), Some(('é', "a")));
    assert_eq!(split_first("\u{7ff}a"), Some(('\u{7ff}', "a")));
    assert_eq!(split_first("\u{800}a"), Some(('\u{800}', "a")));
    assert_eq!(split_first("日本"), Some(('日', "本")));
    assert_eq!(split_first("\u{ffff}a"), Some(('\u{ffff}', "a")));
    assert_eq!(split_first("\u{10000}a"), Some(('\u{10000}', "a")));
    assert_eq!(split_first("🦀"), Some(('🦀', "")));
    assert_eq!(split_first("\u{10ffff}\u{0}"), Some(('\u{10ffff}', "\u{0}")));
    assert_eq!(split_first("\u{7f}\u{80}"), Some(('\u{7f}', "\u{80}")));
}

#[test]
fn split_first_walks_every_character() {
    let mut text = String::new();
    for n in (0..=0x10ffffu32).step_by(97) {
        if let Some(c) = char::from_u32(n) {
            text.push(c);
        }
    }
    let mut cursor: &str = &text;
    let mut seen = String::new();
    while let Some((c, rest)) = split_first(cursor) {
        assert_eq!(rest.len() + c.len_utf8(), cursor.len());
        seen.push(c);
        cursor = rest;
    }
    assert_eq!(cursor, "");
    assert_eq!(seen, text);
}

#[test]
fn trim_start_removes_leading_white_space() {
    assert_eq!(trim_start("  abc  "), "abc  ");
    assert_eq!(trim_start("abc"), "abc");
    assert_eq!(trim_start(""), "");
    assert_eq!(trim_start(" \t\r\n"), "");
    assert_eq!(trim_start("\u{3000}\u{a0}λ x"), "λ x");
    assert_eq!(trim_start("\u{200b} x"), "\u{200b} x");
}

#[test]
fn trim_start_agrees_with_the_standard_library() {
    let samples = [
        "",
        " ",
        "a",
        "  a  ",
        "\n\n(a b)\n",
        "\u{85}\u{1680}\u{2000}\u{200a}\u{2028}\u{2029}\u{202f}\u{205f}x y",
        "\u{feff} a",
        "日本 語",
        "\t🦀\t",
    ];
    for s in samples {
        assert_eq!(trim_start(s), s.trim_start());
    }
}

#[test]
fn before_gives_the_text_in_front_of_a_cursor() {
    let s = "(λ x) tail";
    assert_eq!(before(s, &s[6..]), "(λ x)");
    assert_eq!(before(s, s), "");
    assert_eq!(before(s, ""), s);
    assert_eq!(before(s, &s[1..]), "(");
    assert_eq!(before(s, &s[3..]), "(λ");
    assert_eq!(before("", ""), "");
}
