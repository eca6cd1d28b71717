//! The input cursor: a `&str` that stands for the text still to be read.
//!
//! A cursor only ever moves forward, and only by whole characters. Every
//! function here hands out string slices whose characters are stated exactly,
//! so a caller never has to reason about bytes.

use crate::chars::is_whitespace;
use vstd::prelude::*;
use vstd::string::*;
use vstd::utf8::*;

verus! {

/// `s` without its leading white space.
pub open spec fn trimmed(s: Seq<char>) -> Seq<char>
    decreases s.len(),
{
    if s.len() > 0 && is_whitespace(s[0]) {
        trimmed(s.drop_first())
    } else {
        s
    }
}

/// Trimming removes a prefix and nothing else, and what is left does not
/// start with white space.
pub proof fn lemma_trimmed(s: Seq<char>)
    ensures
        trimmed(s).is_suffix_of(s),
        trimmed(s).len() > 0 ==> !is_whitespace(trimmed(s)[0]),
        forall|i: int| 0 <= i < s.len() - trimmed(s).len() ==> is_whitespace(#[trigger] s[i]),
        trimmed(trimmed(s)) == trimmed(s),
    decreases s.len(),
{
    if s.len() > 0 && is_whitespace(s[0]) {
        let rest = s.drop_first();
        lemma_trimmed(rest);
        let t = trimmed(rest);
        assert(t =~= s.subrange(s.len() - t.len(), s.len() as int));
        assert forall|i: int| 0 <= i < s.len() - t.len() implies is_whitespace(#[trigger] s[i]) by {
            if i > 0 {
                assert(s[i] == rest[i - 1]);
            }
        }
    } else {
        assert(s =~= s.subrange(0, s.len() as int));
    }
}

/// Encoding a text piece by piece gives the encoding of the whole.
pub proof fn lemma_encode_concat(a: Seq<char>, b: Seq<char>)
    ensures
        encode_utf8(a + b) == encode_utf8(a) + encode_utf8(b),
    decreases a.len(),
{
    if a.len() == 0 {
        assert(a + b =~= b);
        assert(encode_utf8(a) + encode_utf8(b) =~= encode_utf8(b));
    } else {
        lemma_encode_concat(a.drop_first(), b);
        assert((a + b).drop_first() =~= a.drop_first() + b);
        assert(encode_utf8(a + b) =~= encode_utf8(a) + encode_utf8(b));
    }
}

/// In the encoding of `a + b`, the place where `b` starts is a character
/// boundary.
pub proof fn lemma_boundary_between(a: Seq<char>, b: Seq<char>)
    ensures
        is_char_boundary(encode_utf8(a + b), encode_utf8(a).len() as int),
    decreases a.len(),
{
    let bytes = encode_utf8(a + b);
    encode_utf8_valid_utf8(a + b);
    if a.len() > 0 {
        let rest = a.drop_first() + b;
        assert((a + b).drop_first() =~= rest);
        encode_utf8_first_scalar(a + b);
        assert(pop_first_scalar(bytes) =~= encode_utf8(rest));
        lemma_boundary_between(a.drop_first(), b);
        lemma_encode_concat(a, b);
    }
}

/// A text has no more characters than its encoding has bytes.
pub proof fn lemma_chars_fit(a: Seq<char>)
    ensures
        a.len() <= encode_utf8(a).len(),
    decreases a.len(),
{
    if a.len() > 0 {
        lemma_chars_fit(a.drop_first());
    }
}

/// Two texts with the same encoding are the same text.
pub proof fn lemma_encode_injective(a: Seq<char>, b: Seq<char>)
    requires
        encode_utf8(a) == encode_utf8(b),
    ensures
        a == b,
{
    encode_utf8_decode_utf8(a);
    encode_utf8_decode_utf8(b);
}

/// Splits the first character off `s`: the character and the cursor behind
/// it, or `None` where `s` is empty.
pub fn split_first<'a>(s: &'a str) -> (r: Option<(char, &'a str)>)
    ensures
        match r {
            None => s@.len() == 0,
            Some((c, rest)) => s@.len() > 0 && c == s@[0] && rest@ == s@.drop_first(),
        },
{
    if s.is_empty() {
        return None;
    }
    let c = s.get_char(0);
    let lead: u8 = s.as_bytes()[0];
    let width: usize = if lead < 0x80 {
        1
    } else if lead < 0xe0 {
        2
    } else if lead < 0xf0 {
        3
    } else {
        4
    };
    proof {
        let head = seq![c];
        assert(s@ =~= head + s@.drop_first());
        lemma_boundary_between(head, s@.drop_first());
        lemma_encode_concat(head, s@.drop_first());
        encode_utf8_first_scalar(s@);
        assert(encode_utf8(head) =~= encode_scalar(c as u32)) by {
            reveal_with_fuel(encode_utf8, 2);
            assert(head.drop_first() =~= Seq::<char>::empty());
        }
        assert(width == encode_scalar(c as u32).len()) by {
            utf8_byte_ranges_bitwise(lead);
        }
    }
    let (_, rest) = s.split_at(width);
    proof {
        assert(rest.spec_bytes() =~= encode_utf8(s@.drop_first()));
        lemma_encode_injective(rest@, s@.drop_first());
    }
    Some((c, rest))
}

/// The text of `s` in front of `tail`, where `tail` is a cursor that was
/// reached from `s`.
pub fn before<'a>(s: &'a str, tail: &str) -> (r: &'a str)
    requires
        tail@.is_suffix_of(s@),
    ensures
        r@ == s@.take(s@.len() - tail@.len()),
{
    let ghost front = s@.take(s@.len() - tail@.len());
    proof {
        assert(s@ =~= front + tail@);
        lemma_encode_concat(front, tail@);
        lemma_boundary_between(front, tail@);
    }
    let width: usize = s.as_bytes().len() - tail.as_bytes().len();
    let (r, _) = s.split_at(width);
    proof {
        assert(r.spec_bytes() =~= encode_utf8(front));
        lemma_encode_injective(r@, front);
    }
    r
}

/// Moves the cursor past leading white space.
pub fn trim_start<'a>(s: &'a str) -> (r: &'a str)
    ensures
        r@ == trimmed(s@),
        r@.is_suffix_of(s@),
{
    proof {
        lemma_trimmed(s@);
    }
    let mut cur: &str = s;
    loop
        invariant
            trimmed(cur@) == trimmed(s@),
            trimmed(s@).is_suffix_of(s@),
        decreases cur@.len(),
    {
        match split_first(cur) {
            None => {
                return cur;
            },
            Some((c, rest)) => {
                if !is_whitespace(c) {
                    return cur;
                }
                cur = rest;
            },
        }
    }
}

} // verus!
