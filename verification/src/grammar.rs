//! The grammar: symbols, parenthesized groups, and lists of both.

use crate::chars::{is_delimiter, is_whitespace};
use crate::combinator::{char_parser, parse_multiple, rule, run, takes_first};
use crate::cursor::{before, lemma_chars_fit, lemma_trimmed, split_first, trim_start};
use crate::laws::{
    lemma_expr_leftover, lemma_expr_list_leftover, lemma_expr_list_well_formed,
    lemma_expr_well_formed, lemma_sexpr_leftover, lemma_sexpr_well_formed, lemma_symbol_leftover,
    lemma_symbol_well_formed,
};
use crate::syntax::{
    closes_at, depth, group_end, has_group, lemma_depth_push, lemma_group_end,
    lemma_group_end_unique, outcome, char_outcome, leftover_of, parse_expr, parse_expr_list,
    parse_exprs, parse_sexpr, parse_symbol, parse_symbol_character, parse_whitespace, symbol_len,
    Expr, Tree,
};
use vstd::prelude::*;

verus! {

/// `String::push` appends the character to the end of the string.
pub assume_specification[ String::push ](s: &mut String, c: char)
    ensures
        final(s)@ == old(s)@.push(c),
;

/// Reads one character that can stand in a symbol.
pub fn symbol_character<'a>(s: &'a str) -> (r: Option<(char, &'a str)>)
    ensures
        char_outcome(r) == parse_symbol_character(s@),
{
    let p = char_parser(is_delimiter);
    let r = p(s);
    proof {
        assert(takes_first(is_delimiter, s, r));
        assert(forall|c: char, b: bool|
            call_ensures(is_delimiter, (c,), b) ==> b == is_delimiter(c));
    }
    r
}

/// Reads one character of white space.
pub fn whitespace<'a>(s: &'a str) -> (r: Option<(char, &'a str)>)
    ensures
        char_outcome(r) == parse_whitespace(s@),
{
    let solid = |c: char| -> (b: bool)
        ensures
            b == !is_whitespace(c)
        { !is_whitespace(c) };
    let p = char_parser(solid);
    let r = p(s);
    proof {
        assert(takes_first(solid, s, r));
        assert(forall|c: char, b: bool| call_ensures(solid, (c,), b) ==> b == !is_whitespace(c));
    }
    r
}

/// The string that holds the characters of `chars`, in order.
fn text_of(chars: &Vec<char>) -> (text: String)
    ensures
        text@ == chars@,
{
    let mut text = String::new();
    let mut i: usize = 0;
    while i < chars.len()
        invariant
            i <= chars.len(),
            text@ == chars@.take(i as int),
        decreases chars.len() - i,
    {
        text.push(chars[i]);
        i += 1;
        assert(chars@.take(i as int) =~= chars@.take(i - 1).push(chars@[i - 1]));
    }
    assert(chars@.take(i as int) =~= chars@);
    text
}

/// Successive symbol characters, up to the first text that does not start
/// with one, are the symbol at the start of `s`.
proof fn lemma_symbol_run(s: Seq<char>, items: Seq<char>, texts: Seq<Seq<char>>)
    requires
        texts.len() == items.len() + 1,
        texts[0] == s,
        forall|i: int|
            0 <= i < items.len() ==> parse_symbol_character(texts[i]) == Some(
                (#[trigger] items[i], texts[i + 1]),
            ),
        parse_symbol_character(texts.last()) is None,
    ensures
        symbol_len(s) == items.len() <= s.len(),
        s.take(items.len() as int) == items,
        s.skip(items.len() as int) == texts.last(),
    decreases items.len(),
{
    if items.len() == 0 {
        assert(s.take(0) =~= items);
        assert(s.skip(0) =~= s);
    } else {
        assert(parse_symbol_character(texts[0]) == Some((items[0], texts[1])));
        let n = items.len() as int;
        let later = items.drop_first();
        assert forall|i: int| 0 <= i < later.len() implies parse_symbol_character(
            texts.drop_first()[i],
        ) == Some((#[trigger] later[i], texts.drop_first()[i + 1])) by {
            assert(later[i] == items[i + 1]);
        }
        lemma_symbol_run(s.drop_first(), later, texts.drop_first());
        assert(s.drop_first().take(n - 1) == later);
        assert(s.take(n) =~= seq![s[0]] + s.drop_first().take(n - 1));
        assert(items =~= seq![items[0]] + later);
        assert(s.skip(n) =~= s.drop_first().skip(n - 1));
    }
}

/// The rule `symbol`: reads the longest run of symbol characters at the
/// start of `s`. It does not match where `s` is empty or starts with white
/// space, a parenthesis or the quote mark.
pub fn symbol<'a>(s: &'a str) -> (r: Option<(Expr, &'a str)>)
    ensures
        outcome(r) == parse_symbol(s@),
        r is None <==> s@.len() == 0 || is_delimiter(s@[0]),
        r matches Some((e, rest)) ==> leftover_of(rest@, s@) && e@.well_formed(),
{
    proof {
        lemma_symbol_leftover(s@);
        lemma_symbol_well_formed(s@);
    }
    assert(forall|x: &str, y: Option<(char, &str)>|
        call_ensures(symbol_character, (x,), y) ==> char_outcome(y) == parse_symbol_character(x@));
    match parse_multiple(symbol_character, s) {
        None => None,
        Some((chars, rest)) => {
            proof {
                let cursors = choose|cursors: Seq<&str>|
                    run(symbol_character, s, chars@, cursors) && cursors.last() == rest;
                let texts = cursors.map_values(|x: &str| x@);
                assert forall|i: int| 0 <= i < chars@.len() implies parse_symbol_character(
                    texts[i],
                ) == Some((#[trigger] chars@[i], texts[i + 1])) by {
                    let y = Some((chars@[i], cursors[i + 1]));
                    assert(call_ensures(symbol_character, (cursors[i],), y));
                }
                lemma_symbol_run(s@, chars@, texts);
            }
            Some((Expr::Symbol(text_of(&chars)), rest))
        },
    }
}

/// Splits a text that starts with a parenthesized group into the text
/// inside the parentheses and the text behind the closing one. Yields `None`
/// where `s` does not open with `(` or ends before the group is closed.
pub fn split_group<'a>(s: &'a str) -> (r: Option<(&'a str, &'a str)>)
    ensures
        match r {
            None => !has_group(s@),
            Some((inner, after)) => {
                &&& has_group(s@)
                &&& inner@ == s@.subrange(1, group_end(s@))
                &&& after@ == s@.skip(group_end(s@) + 1)
            },
        },
{
    let body = match split_first(s) {
        None => {
            return None;
        },
        Some((c, body)) => {
            if c != '(' {
                return None;
            }
            body
        },
    };
    let limit: usize = s.as_bytes().len();
    let mut open: usize = 1;
    let mut cur: &str = body;
    let ghost mut i: int = 1;
    proof {
        lemma_chars_fit(s@);
        lemma_depth_push(s@, 0);
        assert(depth(s@.take(0)) == 0);
    }
    loop
        invariant
            s@.len() <= limit,
            s@.len() > 0,
            s@[0] == '(',
            body@ == s@.drop_first(),
            0 < i <= s@.len(),
            cur@ == s@.skip(i),
            open == depth(s@.take(i)),
            0 < open <= i,
            forall|k: int| 0 < k <= i ==> depth(#[trigger] s@.take(k)) != 0,
        decreases cur@.len(),
    {
        match split_first(cur) {
            None => {
                proof {
                    assert forall|j: int| !closes_at(s@, j) by {
                        if 0 <= j < s@.len() {
                            assert(depth(s@.take(j + 1)) != 0);
                        }
                    }
                }
                return None;
            },
            Some((c, rest)) => {
                proof {
                    lemma_depth_push(s@, i);
                    assert(rest@ =~= s@.skip(i + 1));
                }
                if c == '(' {
                    open += 1;
                } else if c == ')' {
                    open -= 1;
                }
                if open == 0 {
                    proof {
                        assert(closes_at(s@, i));
                        lemma_group_end_unique(s@, i);
                        assert(cur@ =~= body@.skip(i - 1));
                        assert(body@.take(i - 1) =~= s@.subrange(1, i));
                    }
                    return Some((before(body, cur), rest));
                }
                cur = rest;
                proof {
                    i = i + 1;
                }
            },
        }
    }
}

/// The rule `sexpr`: behind leading white space, reads a parenthesized group
/// and its content as a list of expressions.
pub fn sexpr<'a>(s: &'a str) -> (r: Option<(Expr, &'a str)>)
    ensures
        outcome(r) == parse_sexpr(s@),
        r matches Some((e, rest)) ==> leftover_of(rest@, s@) && e@.well_formed(),
    decreases s@.len(), 1int,
{
    proof {
        lemma_sexpr_leftover(s@);
        lemma_sexpr_well_formed(s@);
    }
    let t = trim_start(s);
    match split_group(t) {
        None => None,
        Some((inner, after)) => {
            proof {
                lemma_trimmed(s@);
                lemma_group_end(t@);
            }
            match expr_list(inner) {
                None => None,
                Some((list, _)) => Some((list, after)),
            }
        },
    }
}

/// The rule `expr`: behind leading white space, reads a symbol or, failing
/// that, a parenthesized group.
pub fn expr<'a>(s: &'a str) -> (r: Option<(Expr, &'a str)>)
    ensures
        outcome(r) == parse_expr(s@),
        r matches Some((e, rest)) ==> leftover_of(rest@, s@) && e@.well_formed(),
    decreases s@.len(), 2int,
{
    proof {
        lemma_expr_leftover(s@);
        lemma_expr_well_formed(s@);
    }
    let t = trim_start(s);
    proof {
        lemma_trimmed(s@);
    }
    match symbol(t) {
        Some(found) => Some(found),
        None => sexpr(t),
    }
}

/// Successive expressions, up to the first text at which `expr` does not
/// match, are the expressions at the start of `s`.
proof fn lemma_exprs_run(s: Seq<char>, items: Seq<Tree>, texts: Seq<Seq<char>>)
    requires
        texts.len() == items.len() + 1,
        texts[0] == s,
        forall|i: int|
            0 <= i < items.len() ==> parse_expr(texts[i]) == Some(
                (#[trigger] items[i], texts[i + 1]),
            ),
        parse_expr(texts.last()) is None,
    ensures
        parse_exprs(s) == (items, texts.last()),
    decreases items.len(),
{
    if items.len() > 0 {
        assert(parse_expr(texts[0]) == Some((items[0], texts[1])));
        lemma_expr_leftover(s);
        let later = items.drop_first();
        assert forall|i: int| 0 <= i < later.len() implies parse_expr(texts.drop_first()[i])
            == Some((#[trigger] later[i], texts.drop_first()[i + 1])) by {
            assert(later[i] == items[i + 1]);
        }
        lemma_exprs_run(texts[1], later, texts.drop_first());
        assert(items =~= seq![items[0]] + later);
    }
}

/// The rule `expr_list`: reads expressions one behind the other, as many as
/// there are, and at least one.
///
/// The rule that is repeated is `expr`, taken on texts no longer than `s`:
/// a repetition never asks for more, and with that bound the recursion
/// through a group's content goes to a shorter text each time.
pub fn expr_list<'a>(s: &'a str) -> (r: Option<(Expr, &'a str)>)
    ensures
        outcome(r) == parse_expr_list(s@),
        r matches Some((e, rest)) ==> leftover_of(rest@, s@) && e@.well_formed(),
    decreases s@.len(), 4int,
{
    proof {
        lemma_expr_list_leftover(s@);
        lemma_expr_list_well_formed(s@);
    }
    let each = rule(
        |x: &str| -> (y: Option<(Expr, &str)>)
            requires
                x@.len() <= s@.len(),
            ensures
                outcome(y) == parse_expr(x@)
            { expr(x) },
    );
    proof {
        assert forall|x: &str, v: Expr, rest: &str|
            x@.len() <= s@.len() && #[trigger] call_ensures(
                each,
                (x,),
                Some((v, rest)),
            ) implies rest@.len() < x@.len() by {
            lemma_expr_leftover(x@);
        }
    }
    match parse_multiple(each, s) {
        None => {
            assert(call_ensures(each, (s,), None));
            None
        },
        Some((items, rest)) => {
            let list = Expr::List(items);
            proof {
                let cursors = choose|cursors: Seq<&str>|
                    run(each, s, items@, cursors) && cursors.last() == rest;
                let texts = cursors.map_values(|x: &str| x@);
                let trees = items@.map_values(|e: Expr| e@);
                assert forall|i: int| 0 <= i < trees.len() implies parse_expr(texts[i]) == Some(
                    (#[trigger] trees[i], texts[i + 1]),
                ) by {
                    assert(call_ensures(each, (cursors[i],), Some((items@[i], cursors[i + 1]))));
                }
                assert(call_ensures(each, (rest,), None));
                lemma_exprs_run(s@, trees, texts);
                assert(list@ == Tree::List(trees)) by {
                    assert(list@->List_0 =~= trees);
                }
            }
            Some((list, rest))
        },
    }
}

} // verus!
