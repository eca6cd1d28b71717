//! What holds of the grammar on every text.

use crate::chars::{is_delimiter, is_whitespace};
use crate::cursor::{lemma_trimmed, trimmed};
use crate::syntax::{
    closes_at, depth, group_end, has_group, leftover_of, lemma_depth_push, lemma_group_end,
    lemma_group_end_unique, parse_expr, parse_expr_list, parse_exprs, parse_sexpr, parse_symbol,
    symbol_len, Tree,
};
use vstd::prelude::*;

verus! {

/// The symbol at the start of a text is the longest run of symbol characters
/// there: every character of it can stand in a symbol, and the character
/// behind it, if there is one, cannot.
pub proof fn lemma_symbol_is_longest_run(s: Seq<char>)
    ensures
        symbol_len(s) <= s.len(),
        forall|i: int| 0 <= i < symbol_len(s) ==> !is_delimiter(#[trigger] s[i]),
        symbol_len(s) < s.len() ==> is_delimiter(s[symbol_len(s) as int]),
    decreases s.len(),
{
    if s.len() > 0 && !is_delimiter(s[0]) {
        let rest = s.drop_first();
        lemma_symbol_is_longest_run(rest);
        assert forall|i: int| 0 <= i < symbol_len(s) implies !is_delimiter(#[trigger] s[i]) by {
            if i > 0 {
                assert(s[i] == rest[i - 1]);
            }
        }
        if symbol_len(s) < s.len() {
            assert(s[symbol_len(s) as int] == rest[symbol_len(rest) as int]);
        }
    }
}

/// A text that is not empty and holds no white space, parenthesis or quote
/// mark is read by `symbol` as one symbol, with nothing left over. `expr`
/// reads it the same way.
pub proof fn lemma_token_is_symbol(t: Seq<char>)
    requires
        t.len() > 0,
        forall|i: int| 0 <= i < t.len() ==> !is_delimiter(t[i]),
    ensures
        parse_symbol(t) == Some((Tree::Symbol(t), Seq::<char>::empty())),
        parse_expr(t) == Some((Tree::Symbol(t), Seq::<char>::empty())),
{
    lemma_symbol_is_longest_run(t);
    assert(t.take(t.len() as int) =~= t);
    assert(t.skip(t.len() as int) =~= Seq::<char>::empty());
}

/// The count of open parentheses adds up over the parts of a text.
pub proof fn lemma_depth_concat(a: Seq<char>, b: Seq<char>)
    ensures
        depth(a + b) == depth(a) + depth(b),
    decreases b.len(),
{
    if b.len() == 0 {
        assert(a + b =~= a);
    } else {
        lemma_depth_concat(a, b.drop_last());
        assert((a + b).drop_last() =~= a + b.drop_last());
    }
}

/// Whether the parentheses of `s` pair up: none closes what was not opened,
/// and none is left open at the end.
pub open spec fn balanced(s: Seq<char>) -> bool {
    &&& depth(s) == 0
    &&& forall|k: int| 0 <= k <= s.len() ==> depth(#[trigger] s.take(k)) >= 0
}

/// The text `(inner)after`.
pub open spec fn group(inner: Seq<char>, after: Seq<char>) -> Seq<char> {
    seq!['('] + inner + seq![')'] + after
}

/// In `(inner)after` with balanced `inner`, the group closes at the
/// parenthesis behind `inner`.
pub proof fn lemma_group_closes(inner: Seq<char>, after: Seq<char>)
    requires
        balanced(inner),
    ensures
        has_group(group(inner, after)),
        group_end(group(inner, after)) == inner.len() + 1,
        group(inner, after).subrange(1, inner.len() as int + 1) == inner,
        group(inner, after).skip(inner.len() as int + 2) == after,
        trimmed(group(inner, after)) == group(inner, after),
{
    let s = group(inner, after);
    let j: int = inner.len() as int + 1;
    let open = seq!['('];
    assert(depth(open) == 1) by {
        assert(open.drop_last() =~= Seq::<char>::empty());
        assert(depth(open.drop_last()) == 0);
    }
    assert forall|k: int| 0 < k <= j implies depth(#[trigger] s.take(k)) != 0 by {
        assert(s.take(k) =~= open + inner.take(k - 1));
        lemma_depth_concat(open, inner.take(k - 1));
    }
    assert(depth(s.take(j + 1)) == 0) by {
        assert(inner.take(inner.len() as int) =~= inner);
        assert(s.take(j) =~= open + inner);
        lemma_depth_concat(open, inner);
        lemma_depth_push(s, j);
    }
    assert(closes_at(s, j));
    lemma_group_end_unique(s, j);
    assert(s.subrange(1, j) =~= inner);
    assert(s.skip(j + 1) =~= after);
}

/// A group `(inner)`, where the parentheses of `inner` pair up and `inner`
/// reads as a list of expressions, is read by `sexpr` as that list, and what
/// is left over is the text behind the closing parenthesis. `expr` reads it
/// the same way.
pub proof fn lemma_group_is_list(inner: Seq<char>, after: Seq<char>)
    requires
        balanced(inner),
        parse_expr_list(inner) is Some,
    ensures
        parse_expr_list(inner) matches Some((list, _)) && parse_sexpr(group(inner, after)) == Some(
            (list, after),
        ) && parse_expr(group(inner, after)) == Some((list, after)),
{
    lemma_group_closes(inner, after);
}

/// A text in which, behind leading white space, the count of open
/// parentheses never comes back to zero is no match for `sexpr`. That is so
/// where a group is opened and never closed, and where the text starts with
/// a closing parenthesis that no later one makes up for.
pub proof fn lemma_unclosed_group_is_no_match(s: Seq<char>)
    requires
        forall|k: int| 0 < k <= trimmed(s).len() ==> depth(#[trigger] trimmed(s).take(k)) != 0,
    ensures
        parse_sexpr(s) is None,
{
    let t = trimmed(s);
    if has_group(t) {
        let j: int = group_end(t);
        assert(depth(t.take(j + 1)) == 0);
    }
}

/// A text that, behind leading white space, starts with a closing
/// parenthesis is no match for `sexpr`, nor for `expr`.
pub proof fn lemma_stray_close_is_no_match(s: Seq<char>)
    requires
        trimmed(s).len() > 0,
        trimmed(s)[0] == ')',
    ensures
        parse_sexpr(s) is None,
        parse_expr(s) is None,
{
    lemma_trimmed(s);
}

/// What `sexpr` reads has as many opening parentheses as closing ones, so
/// where the parentheses of a text do not pair up and `sexpr` matches all
/// the same, the leftover holds the ones that have no partner.
pub proof fn lemma_sexpr_reads_balanced(s: Seq<char>)
    ensures
        parse_sexpr(s) matches Some((_, rest)) ==> depth(s.take(s.len() - rest.len())) == 0
            && depth(rest) == depth(s),
{
    if let Some((_, rest)) = parse_sexpr(s) {
        let t = trimmed(s);
        let j: int = group_end(t);
        lemma_trimmed(s);
        lemma_group_end(t);
        let lead = s.take(s.len() - t.len());
        let read = s.take(s.len() - rest.len());
        lemma_blank_depth(lead);
        assert(read =~= lead + t.take(j + 1));
        lemma_depth_concat(lead, t.take(j + 1));
        assert(s =~= read + rest);
        lemma_depth_concat(read, rest);
    }
}

/// A text whose parentheses do not pair up is never read to its end by
/// `sexpr`: either it is no match, or the leftover is not empty and holds the
/// parentheses that have no partner.
pub proof fn lemma_unbalanced_is_not_read_whole(s: Seq<char>)
    requires
        depth(s) != 0,
    ensures
        parse_sexpr(s) matches Some((_, rest)) ==> rest.len() > 0 && depth(rest) == depth(s),
{
    lemma_sexpr_reads_balanced(s);
}

/// White space opens and closes nothing.
pub proof fn lemma_blank_depth(s: Seq<char>)
    requires
        forall|i: int| 0 <= i < s.len() ==> is_whitespace(s[i]),
    ensures
        depth(s) == 0,
        trimmed(s) == Seq::<char>::empty(),
    decreases s.len(),
{
    if s.len() > 0 {
        lemma_blank_depth(s.drop_last());
        lemma_blank_depth(s.drop_first());
    }
}

/// A group with nothing or only white space between its parentheses is no
/// match for `sexpr`: a list has at least one element.
pub proof fn lemma_blank_group_is_no_match(inner: Seq<char>, after: Seq<char>)
    requires
        forall|i: int| 0 <= i < inner.len() ==> is_whitespace(inner[i]),
    ensures
        parse_sexpr(group(inner, after)) is None,
{
    lemma_blank_depth(inner);
    assert forall|k: int| 0 <= k <= inner.len() implies depth(#[trigger] inner.take(k)) >= 0 by {
        lemma_blank_depth(inner.take(k));
    }
    lemma_group_closes(inner, after);
    assert(parse_symbol(trimmed(inner)) is None);
    assert(parse_sexpr(trimmed(inner)) is None);
    assert(parse_expr(inner) is None);
}

/// A suffix of a suffix is a suffix.
pub proof fn lemma_suffix_of_suffix(a: Seq<char>, b: Seq<char>, c: Seq<char>)
    requires
        a.is_suffix_of(b),
        b.is_suffix_of(c),
    ensures
        a.is_suffix_of(c),
{
}

/// What `symbol` leaves over is the text behind the symbol, as it stands.
pub proof fn lemma_symbol_leftover(s: Seq<char>)
    ensures
        parse_symbol(s) matches Some((_, rest)) ==> leftover_of(rest, s),
{
    lemma_symbol_is_longest_run(s);
}

/// What `sexpr` leaves over is the text behind the group, as it stands.
pub proof fn lemma_sexpr_leftover(s: Seq<char>)
    ensures
        parse_sexpr(s) matches Some((_, rest)) ==> leftover_of(rest, s),
{
    let t = trimmed(s);
    lemma_trimmed(s);
    if has_group(t) {
        lemma_group_end(t);
        lemma_suffix_of_suffix(t.skip(group_end(t) + 1), t, s);
    }
}

/// What `expr` leaves over is the text behind the expression, as it stands:
/// the end of the text that was given, character for character.
pub proof fn lemma_expr_leftover(s: Seq<char>)
    ensures
        parse_expr(s) matches Some((_, rest)) ==> leftover_of(rest, s),
{
    let t = trimmed(s);
    lemma_trimmed(s);
    lemma_symbol_leftover(t);
    lemma_sexpr_leftover(t);
    if let Some((_, rest)) = parse_expr(s) {
        lemma_suffix_of_suffix(rest, t, s);
    }
}

/// The repetition stops at the end of the text that was given or somewhere
/// before it, and it has read something exactly where it yields an item.
pub proof fn lemma_exprs_leftover(s: Seq<char>)
    ensures
        parse_exprs(s).1.is_suffix_of(s),
        parse_exprs(s).0.len() == 0 <==> parse_exprs(s).1.len() == s.len(),
        parse_expr(parse_exprs(s).1) is None,
    decreases s.len(),
{
    lemma_expr_leftover(s);
    match parse_expr(s) {
        Some((_, rest)) => {
            lemma_exprs_leftover(rest);
            lemma_suffix_of_suffix(parse_exprs(rest).1, rest, s);
        },
        None => {
            assert(s =~= s.subrange(0, s.len() as int));
        },
    }
}

/// The repetition yields no more expressions than it reads characters, so
/// it comes to an end on every text.
pub proof fn lemma_exprs_bounded(s: Seq<char>)
    ensures
        parse_exprs(s).0.len() + parse_exprs(s).1.len() <= s.len(),
    decreases s.len(),
{
    lemma_expr_leftover(s);
    if let Some((_, rest)) = parse_expr(s) {
        lemma_exprs_bounded(rest);
    }
}

/// What `expr_list` leaves over is the text behind the last expression, as
/// it stands, and no further expression starts there.
pub proof fn lemma_expr_list_leftover(s: Seq<char>)
    ensures
        parse_expr_list(s) matches Some((_, rest)) ==> leftover_of(rest, s) && parse_expr(rest)
            is None,
{
    lemma_exprs_leftover(s);
}

/// Every tree that `symbol` yields is well formed.
pub proof fn lemma_symbol_well_formed(s: Seq<char>)
    ensures
        parse_symbol(s) matches Some((tree, _)) ==> tree.well_formed(),
{
    lemma_symbol_is_longest_run(s);
}

/// Every tree that `sexpr` yields is well formed.
pub proof fn lemma_sexpr_well_formed(s: Seq<char>)
    ensures
        parse_sexpr(s) matches Some((tree, _)) ==> tree.well_formed(),
    decreases s.len(), 1int,
{
    let t = trimmed(s);
    if has_group(t) {
        lemma_trimmed(s);
        lemma_group_end(t);
        lemma_expr_list_well_formed(t.subrange(1, group_end(t)));
    }
}

/// Every tree that `expr` yields is well formed.
pub proof fn lemma_expr_well_formed(s: Seq<char>)
    ensures
        parse_expr(s) matches Some((tree, _)) ==> tree.well_formed(),
    decreases s.len(), 2int,
{
    let t = trimmed(s);
    lemma_trimmed(s);
    lemma_symbol_well_formed(t);
    if parse_symbol(t) is None {
        lemma_sexpr_well_formed(t);
    }
}

/// Every tree in what the repetition yields is well formed.
pub proof fn lemma_exprs_well_formed(s: Seq<char>)
    ensures
        forall|i: int|
            0 <= i < parse_exprs(s).0.len() ==> (#[trigger] parse_exprs(s).0[i]).well_formed(),
    decreases s.len(), 3int,
{
    lemma_expr_well_formed(s);
    if let Some((first, rest)) = parse_expr(s) {
        if rest.len() < s.len() {
            lemma_exprs_well_formed(rest);
            let others = parse_exprs(rest).0;
            let items = parse_exprs(s).0;
            assert(items == seq![first] + others);
            assert forall|i: int| 0 <= i < items.len() implies (#[trigger] items[i]).well_formed(
            ) by {
                if i > 0 {
                    assert(items[i] == others[i - 1]);
                }
            }
        }
    }
}

/// Every tree that `expr_list` yields is well formed: it is a list, and it
/// is not empty.
pub proof fn lemma_expr_list_well_formed(s: Seq<char>)
    ensures
        parse_expr_list(s) matches Some((tree, _)) ==> tree is List && tree.well_formed(),
    decreases s.len(), 4int,
{
    lemma_exprs_well_formed(s);
    if let Some((tree, _)) = parse_expr_list(s) {
        assert(tree == Tree::List(parse_exprs(s).0));
    }
}

} // verus!
