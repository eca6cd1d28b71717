//! What the grammar means: the syntax tree, and for each rule the value and
//! the leftover text that it yields on a given text.

use crate::chars::{is_delimiter, is_whitespace};
use crate::cursor::{lemma_trimmed, trimmed};
use vstd::prelude::*;

verus! {

/// A parsed expression: an atomic symbol, or a list of expressions.
#[derive(Debug, PartialEq, Eq)]
pub enum Expr {
    Symbol(String),
    List(Vec<Expr>),
}

/// The mathematical value of an [`Expr`].
pub enum Tree {
    Symbol(Seq<char>),
    List(Seq<Tree>),
}

impl Tree {
    /// Whether the tree is one that the grammar can yield: every symbol is a
    /// run of one or more symbol characters, and every list has an element.
    pub open spec fn well_formed(self) -> bool
        decreases self,
    {
        match self {
            Tree::Symbol(text) => {
                &&& text.len() > 0
                &&& forall|i: int| 0 <= i < text.len() ==> !is_delimiter(#[trigger] text[i])
            },
            Tree::List(items) => {
                &&& items.len() > 0
                &&& forall|i: int| 0 <= i < items.len() ==> (#[trigger] items[i]).well_formed()
            },
        }
    }
}

impl View for Expr {
    type V = Tree;

    open spec fn view(&self) -> Tree
        decreases self,
    {
        match self {
            Expr::Symbol(text) => Tree::Symbol(text@),
            Expr::List(items) => Tree::List(
                Seq::new(
                    items.len() as nat,
                    |i: int|
                        if 0 <= i < items.len() {
                            items[i].view()
                        } else {
                            arbitrary()
                        },
                ),
            ),
        }
    }
}

/// What a rule yields: nothing, or a value and the text left over.
pub type Parsed = Option<(Tree, Seq<char>)>;

/// The mathematical value of a rule's result.
pub open spec fn outcome(r: Option<(Expr, &str)>) -> Parsed {
    match r {
        None => None,
        Some((e, rest)) => Some((e@, rest@)),
    }
}

/// Whether `rest` is what a rule may leave of `s`: the end of `s`, and less
/// than all of it.
pub open spec fn leftover_of(rest: Seq<char>, s: Seq<char>) -> bool {
    rest.len() < s.len() && rest.is_suffix_of(s)
}

/// The rule `symbol_character`: the first character of `s`, where it can
/// stand in a symbol.
pub open spec fn parse_symbol_character(s: Seq<char>) -> Option<(char, Seq<char>)> {
    if s.len() > 0 && !is_delimiter(s[0]) {
        Some((s[0], s.drop_first()))
    } else {
        None
    }
}

/// The rule `whitespace`: the first character of `s`, where it is white
/// space.
pub open spec fn parse_whitespace(s: Seq<char>) -> Option<(char, Seq<char>)> {
    if s.len() > 0 && is_whitespace(s[0]) {
        Some((s[0], s.drop_first()))
    } else {
        None
    }
}

/// The mathematical value of what a rule that reads one character returned.
pub open spec fn char_outcome(r: Option<(char, &str)>) -> Option<(char, Seq<char>)> {
    match r {
        None => None,
        Some((c, rest)) => Some((c, rest@)),
    }
}

/// The number of characters at the start of `s` that can stand in a symbol.
pub open spec fn symbol_len(s: Seq<char>) -> nat
    decreases s.len(),
{
    if s.len() > 0 && !is_delimiter(s[0]) {
        1 + symbol_len(s.drop_first())
    } else {
        0
    }
}

/// The rule `symbol`: the longest run of symbol characters at the start of
/// `s`, which must not be empty.
pub open spec fn parse_symbol(s: Seq<char>) -> Parsed {
    let n = symbol_len(s) as int;
    if n == 0 {
        None
    } else {
        Some((Tree::Symbol(s.take(n)), s.skip(n)))
    }
}

/// By how much `c` changes the count of open parentheses.
pub open spec fn step(c: char) -> int {
    if c == '(' {
        1
    } else if c == ')' {
        -1
    } else {
        0
    }
}

/// The count of open parentheses at the end of `s`: the number of `(` in `s`
/// less the number of `)`.
pub open spec fn depth(s: Seq<char>) -> int
    decreases s.len(),
{
    if s.len() == 0 {
        0
    } else {
        depth(s.drop_last()) + step(s.last())
    }
}

/// Whether the count of open parentheses, taken from the start of `s`,
/// comes back to zero at `s[j]` and nowhere before.
pub open spec fn closes_at(s: Seq<char>, j: int) -> bool {
    &&& 0 <= j < s.len()
    &&& depth(s.take(j + 1)) == 0
    &&& forall|k: int| 0 < k <= j ==> depth(#[trigger] s.take(k)) != 0
}

/// Whether `s` starts with a parenthesized group: an opening parenthesis
/// and, somewhere behind it, the closing one that matches it.
pub open spec fn has_group(s: Seq<char>) -> bool {
    s.len() > 0 && s[0] == '(' && exists|j: int| closes_at(s, j)
}

/// Where the group at the start of `s` closes.
pub open spec fn group_end(s: Seq<char>) -> int {
    choose|j: int| closes_at(s, j)
}

/// The count of open parentheses behind one more character.
pub proof fn lemma_depth_push(s: Seq<char>, i: int)
    requires
        0 <= i < s.len(),
    ensures
        depth(s.take(i + 1)) == depth(s.take(i)) + step(s[i]),
{
    assert(s.take(i + 1).drop_last() =~= s.take(i));
}

/// A group closes behind its opening parenthesis, and inside the text.
pub proof fn lemma_group_end(s: Seq<char>)
    requires
        has_group(s),
    ensures
        closes_at(s, group_end(s)),
        0 < group_end(s) < s.len(),
{
    let j = group_end(s);
    if j == 0 {
        lemma_depth_push(s, 0);
        assert(depth(s.take(0)) == 0);
    }
}

/// A group closes at one place only.
pub proof fn lemma_group_end_unique(s: Seq<char>, j: int)
    requires
        closes_at(s, j),
    ensures
        group_end(s) == j,
{
    let i = group_end(s);
    if i < j {
        assert(depth(s.take(i + 1)) == 0);
    } else if j < i {
        assert(depth(s.take(j + 1)) == 0);
    }
}

/// The rule `sexpr`: behind leading white space a parenthesized group, whose
/// content is read as a list of expressions. What the list leaves unread
/// inside the group is dropped; the leftover is the text behind the group.
pub open spec fn parse_sexpr(s: Seq<char>) -> Parsed
    decreases s.len(), 1int,
{
    let t = trimmed(s);
    if has_group(t) {
        let j = group_end(t);
        proof {
            lemma_trimmed(s);
            lemma_group_end(t);
        }
        match parse_expr_list(t.subrange(1, j)) {
            Some((list, _)) => Some((list, t.skip(j + 1))),
            None => None,
        }
    } else {
        None
    }
}

/// The rule `expr`: behind leading white space a symbol or, failing that, a
/// parenthesized group.
pub open spec fn parse_expr(s: Seq<char>) -> Parsed
    decreases s.len(), 2int,
{
    let t = trimmed(s);
    proof {
        lemma_trimmed(s);
    }
    match parse_symbol(t) {
        Some(found) => Some(found),
        None => parse_sexpr(t),
    }
}

/// The expressions that stand one behind the other at the start of `s`, as
/// far as `expr` matches, and the text behind the last of them. The
/// repetition goes on only while the text gets shorter, which it always does
/// behind a match of `expr`.
pub open spec fn parse_exprs(s: Seq<char>) -> (Seq<Tree>, Seq<char>)
    decreases s.len(), 3int,
{
    match parse_expr(s) {
        Some((first, rest)) => if rest.len() < s.len() {
            let (others, end) = parse_exprs(rest);
            (seq![first] + others, end)
        } else {
            (Seq::empty(), s)
        },
        None => (Seq::empty(), s),
    }
}

/// The rule `expr_list`: one expression or more.
pub open spec fn parse_expr_list(s: Seq<char>) -> Parsed
    decreases s.len(), 4int,
{
    let (items, rest) = parse_exprs(s);
    if items.len() == 0 {
        None
    } else {
        Some((Tree::List(items), rest))
    }
}

} // verus!
