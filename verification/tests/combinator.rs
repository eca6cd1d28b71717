use lispy::combinator::{char_parser, parse_consume, parse_iter, parse_multiple, rule};
use lispy::cursor::{split_first, trim_start};
use lispy::{symbol, Expr};

fn sym(text: &str) -> Expr {
    Expr::Symbol(text.to_string())
}

fn is_not_digit(c: char) -> bool {
    !c.is_ascii_digit()
}

fn digit(s: &str) -> Option<(u32, &str)> {
    let (c, rest) = split_first(s)?;
    Some((c.to_digit(10)?, rest))
}

#[test]
fn char_parser_reads_unless_rejected() {
    let digits = char_parser(is_not_digit);
    assert_eq!(digits("42x"), Some(('4', "2x")));
    assert_eq!(digits("x42"), None);
    assert_eq!(digits(""), None);
}

#[test]
fn char_parser_takes_a_closure() {
    let stop = 'λ';
    let until_stop = char_parser(move |c: char| c == stop);
    assert_eq!(until_stop("日λ"), Some(('日', "λ")));
    assert_eq!(until_stop("λ日"), None);
    let any = char_parser(|_c: char| false);
    assert_eq!(any("🦀!"), Some(('🦀', "!")));
    assert_eq!(any(""), None);
    let none = char_parser(|_c: char| true);
    assert_eq!(none("abc"), None);
}

#[test]
fn parse_multiple_collects_until_the_rule_fails() {
    assert_eq!(parse_multiple(digit, "2024-10"), Some((vec![2, 0, 2, 4], "-10")));
    assert_eq!(parse_multiple(digit, "7"), Some((vec![7], "")));
    assert_eq!(parse_multiple(char_parser(is_not_digit), "12ab"), Some((vec!['1', '2'], "ab")));
}

#[test]
fn parse_multiple_fails_without_a_match() {
    assert_eq!(parse_multiple(digit, "x1"), None);
    assert_eq!(parse_multiple(digit, ""), None);
}

#[test]
fn parse_multiple_takes_a_closure_made_a_rule() {
    let vowel = rule(|s: &str| {
        let (c, rest) = split_first(s)?;
        if "aeiou".contains(c) {
            Some((c, rest))
        } else {
            None
        }
    });
    assert_eq!(parse_multiple(vowel, "aeiklm"), Some((vec!['a', 'e', 'i'], "klm")));
}

#[test]
fn parse_iter_yields_one_value_at_a_time() {
    let mut it = parse_iter(digit, "12a3");
    assert_eq!(it.s, "12a3");
    assert_eq!(it.next(), Some((1, "2a3")));
    assert_eq!(it.s, "2a3");
    assert_eq!(it.next(), Some((2, "a3")));
    assert_eq!(it.s, "a3");
    assert_eq!(it.next(), None);
    assert_eq!(it.s, "a3");
    assert_eq!(it.next(), None);
}

#[test]
fn parse_iter_on_empty_input_yields_nothing() {
    let mut it = parse_iter(digit, "");
    assert_eq!(it.next(), None);
    assert_eq!(it.s, "");
}

#[test]
fn parse_consume_moves_on_behind_a_match() {
    let token = parse_consume(symbol, trim_start);
    assert_eq!(token("abc   def"), Some((sym("abc"), "def")));
    assert_eq!(token("abc"), Some((sym("abc"), "")));
    assert_eq!(token("abc("), Some((sym("abc"), "(")));
    assert_eq!(token("  abc"), None);
    assert_eq!(token(""), None);
}

#[test]
fn parse_consume_works_under_repetition() {
    let token = parse_consume(symbol, trim_start);
    let expected = vec![sym("a"), sym("b"), sym("c")];
    assert_eq!(parse_multiple(token, "a b\t c  )"), Some((expected, ")")));
}
