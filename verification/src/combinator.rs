//! Rules as values, and the functions that build rules from rules.
//!
//! A rule is a function from a cursor to a value and the cursor behind what
//! it read, or to `None` where it does not match. The contracts here hold for
//! every such function, so they speak of what a call of the rule may yield.

use crate::cursor::split_first;
use vstd::prelude::*;

verus! {

/// Hands `parser` back as it is. A closure written as the argument takes the
/// signature of a rule, in which the leftover borrows from the input.
pub fn rule<T, P>(parser: P) -> (r: P) where P: for<'b> Fn(&'b str) -> Option<(T, &'b str)>
    ensures
        r == parser,
{
    parser
}

/// What the rule built by [`char_parser`] may yield on `x`: the first
/// character and the cursor behind it, unless the text has ended or `reject`
/// holds of that character.
pub open spec fn takes_first<F: Fn(char) -> bool>(
    reject: F,
    x: &str,
    y: Option<(char, &str)>,
) -> bool {
    match y {
        None => x@.len() == 0 || call_ensures(reject, (x@[0],), true),
        Some((c, rest)) => {
            &&& x@.len() > 0
            &&& c == x@[0]
            &&& rest@ == x@.drop_first()
            &&& call_ensures(reject, (c,), false)
        },
    }
}

/// The rule that reads one character, whatever it is, unless `reject` holds
/// of it.
pub fn char_parser<F>(reject: F) -> (p: impl for<'b> Fn(&'b str) -> Option<(char, &'b str)>) where
    F: Fn(char) -> bool,

    requires
        forall|c: char| call_requires(reject, (c,)),
    ensures
        forall|x: &str| call_requires(p, (x,)),
        forall|x: &str, y: Option<(char, &str)>|
            call_ensures(p, (x,), y) ==> takes_first(reject, x, y),
{
    move |x: &str| -> (y: Option<(char, &str)>)
        ensures
            takes_first(reject, x, y)
        {
            match split_first(x) {
                None => None,
                Some((c, rest)) => {
                    if reject(c) {
                        None
                    } else {
                        Some((c, rest))
                    }
                },
            }
        }
}

/// Whether `y` is `found` with its leftover moved on by `consumer`.
pub open spec fn moved_on<T, C>(
    consumer: C,
    found: Option<(T, &str)>,
    y: Option<(T, &str)>,
) -> bool where C: for<'b> Fn(&'b str) -> &'b str {
    match (found, y) {
        (None, None) => true,
        (Some((v, mid)), Some((w, rest))) => v == w && call_ensures(consumer, (mid,), rest),
        _ => false,
    }
}

/// What the rule built by [`parse_consume`] may yield on `x`: what `parser`
/// yields there, with the leftover moved on by `consumer`.
pub open spec fn consumes_behind<T, P, C>(
    parser: P,
    consumer: C,
    x: &str,
    y: Option<(T, &str)>,
) -> bool where
    P: for<'b> Fn(&'b str) -> Option<(T, &'b str)>,
    C: for<'b> Fn(&'b str) -> &'b str,
 {
    exists|found: Option<(T, &str)>| #[trigger]
        call_ensures(parser, (x,), found) && moved_on(consumer, found, y)
}

/// The rule that applies `parser` and then moves the cursor on as `consumer`
/// says, which is a way to skip what may follow a value.
pub fn parse_consume<T, P, C>(parser: P, consumer: C) -> (p: impl for<'b> Fn(&'b str) -> Option<
    (T, &'b str),
>) where
    P: for<'b> Fn(&'b str) -> Option<(T, &'b str)>,
    C: for<'b> Fn(&'b str) -> &'b str,

    requires
        forall|x: &str| call_requires(parser, (x,)),
        forall|x: &str| call_requires(consumer, (x,)),
    ensures
        forall|x: &str| call_requires(p, (x,)),
        forall|x: &str, y: Option<(T, &str)>|
            call_ensures(p, (x,), y) ==> consumes_behind(parser, consumer, x, y),
{
    move |x: &str| -> (y: Option<(T, &str)>)
        ensures
            consumes_behind(parser, consumer, x, y)
        {
            match parser(x) {
                None => None,
                Some((v, mid)) => Some((v, consumer(mid))),
            }
        }
}

/// Whether `parser` can be called on every text of at most `limit`
/// characters.
pub open spec fn applies_within<T, P>(parser: P, limit: nat) -> bool where
    P: for<'b> Fn(&'b str) -> Option<(T, &'b str)>,
 {
    forall|x: &str| x@.len() <= limit ==> call_requires(parser, (x,))
}

/// Whether `parser`, on a text of at most `limit` characters, reads at least
/// one character whenever it matches.
pub open spec fn consumes_within<T, P>(parser: P, limit: nat) -> bool where
    P: for<'b> Fn(&'b str) -> Option<(T, &'b str)>,
 {
    forall|x: &str, v: T, rest: &str|
        x@.len() <= limit && #[trigger] call_ensures(parser, (x,), Some((v, rest))) ==> rest@.len()
            < x@.len()
}

/// Whether applying `parser` again and again from `start` may yield `items`
/// one after the other, `cursors[i + 1]` being the cursor behind `items[i]`.
pub open spec fn run<T, P>(parser: P, start: &str, items: Seq<T>, cursors: Seq<&str>) -> bool where
    P: for<'b> Fn(&'b str) -> Option<(T, &'b str)>,
 {
    &&& cursors.len() == items.len() + 1
    &&& cursors[0] == start
    &&& forall|i: int|
        0 <= i < items.len() ==> call_ensures(
            parser,
            (cursors[i],),
            Some((#[trigger] items[i], cursors[i + 1])),
        )
}

/// The state of a repeated application: the rule, and the cursor that its
/// next application starts from.
pub struct IterParse<'a, P> {
    pub parser: P,
    pub s: &'a str,
}

impl<'a, P> IterParse<'a, P> {
    /// Applies the rule once more. A match moves the cursor behind what was
    /// read; a failure leaves it where it is.
    pub fn next<T>(&mut self) -> (r: Option<(T, &'a str)>) where
        P: for<'b> Fn(&'b str) -> Option<(T, &'b str)>,

        requires
            call_requires(old(self).parser, (old(self).s,)),
        ensures
            final(self).parser == old(self).parser,
            call_ensures(old(self).parser, (old(self).s,), r),
            final(self).s == match r {
                Some((_, rest)) => rest,
                None => old(self).s,
            },
    {
        match (self.parser)(self.s) {
            None => None,
            Some((v, rest)) => {
                self.s = rest;
                Some((v, rest))
            },
        }
    }
}

/// Starts a repeated application of `parser` at `s`.
pub fn parse_iter<'a, P>(parser: P, s: &'a str) -> (it: IterParse<'a, P>)
    ensures
        it.parser == parser,
        it.s == s,
{
    IterParse { parser, s }
}

/// Applies `parser` again and again, each time to what the last match left,
/// until it fails. Yields the values in order and the cursor at which it
/// failed, or `None` where it failed at `s` itself. As every match reads a
/// character or more, there are no more values than characters read.
pub fn parse_multiple<'a, T, P>(parser: P, s: &'a str) -> (r: Option<(Vec<T>, &'a str)>) where
    P: for<'b> Fn(&'b str) -> Option<(T, &'b str)>,

    requires
        applies_within(parser, s@.len()),
        consumes_within(parser, s@.len()),
    ensures
        match r {
            None => call_ensures(parser, (s,), None),
            Some((items, rest)) => {
                &&& 0 < items.len() <= s@.len() - rest@.len()
                &&& call_ensures(parser, (rest,), None)
                &&& exists|cursors: Seq<&str>|
                    run(parser, s, items@, cursors) && cursors.last() == rest
            },
        },
{
    let mut it = parse_iter(parser, s);
    let mut items: Vec<T> = Vec::new();
    let ghost mut cursors: Seq<&str> = seq![s];
    loop
        invariant
            it.parser == parser,
            applies_within(parser, s@.len()),
            consumes_within(parser, s@.len()),
            items.len() + it.s@.len() <= s@.len(),
            run(parser, s, items@, cursors),
            cursors.last() == it.s,
        ensures
            call_ensures(parser, (it.s,), None),
        decreases it.s@.len(),
    {
        match it.next() {
            None => {
                break;
            },
            Some((v, rest)) => {
                items.push(v);
                proof {
                    cursors = cursors.push(rest);
                }
            },
        }
    }
    let rest = it.s;
    if items.len() == 0 {
        None
    } else {
        Some((items, rest))
    }
}

} // verus!
