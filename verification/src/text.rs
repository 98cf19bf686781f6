//! Borrowing operations on string slices, specified over their characters.
//!
//! Every function here hands back sub-slices of its argument; nothing is
//! copied, and no slice ever ends inside a character.

use vstd::prelude::*;
use vstd::string::*;
use vstd::utf8::*;
use crate::encoding::{
    cut, find_either, first_char_width, is_ascii_char, lemma_ascii_char_occurs, lemma_encode_ascii,
    lemma_encode_empty, lemma_encode_injective, lemma_encode_prefix, lemma_first_ascii_byte,
    lemma_valid_prefix_is_boundary, starts_with_bytes,
};

verus! {

/// Whether `s` holds neither `a` nor `b`.
pub open spec fn free_of(s: Seq<char>, a: char, b: char) -> bool {
    forall|i: int| 0 <= i < s.len() ==> s[i] != a && s[i] != b
}

/// Splits `s` into its first character and the rest; `None` when `s` is empty.
pub fn split_first_char<'a>(s: &'a str) -> (r: Option<(&'a str, &'a str)>)
    ensures
        r is None <==> s@.len() == 0,
        r matches Some((first, rest)) ==> first@ == s@.take(1) && rest@ == s@.skip(1),
{
    if s.is_empty() {
        None
    } else {
        let width = first_char_width(s);
        let (first, rest) = cut(s, width);
        proof {
            lemma_encode_injective(first@, seq![s@[0]]);
            lemma_encode_injective(rest@, s@.drop_first());
            assert(first@ =~= s@.take(1));
            assert(rest@ =~= s@.skip(1));
        }
        Some((first, rest))
    }
}

/// If `s` begins with the ASCII character `c`, the rest of `s` behind it;
/// `None` otherwise.
pub fn strip_char<'a>(s: &'a str, c: char) -> (r: Option<&'a str>)
    requires
        is_ascii_char(c),
    ensures
        r is Some <==> s@.len() > 0 && s@[0] == c,
        r matches Some(rest) ==> rest@ == s@.skip(1),
{
    match split_first_char(s) {
        None => None,
        Some((first, rest)) => {
            proof {
                lemma_encode_empty(first@);
                if first@[0] == c {
                    lemma_encode_ascii(c);
                } else if first.spec_bytes()[0] == c as u8 {
                    lemma_first_ascii_byte(first@);
                    lemma_same_ascii(first@[0], c);
                }
            }
            let bytes = first.as_bytes();
            if bytes[0] == c as u8 {
                Some(rest)
            } else {
                None
            }
        },
    }
}

/// Splits `s` in front of the first occurrence of `a` or `b`, both ASCII.
///
/// The first part holds neither character; the second part is empty or begins
/// with one of them.
pub fn split_before_either<'a>(s: &'a str, a: char, b: char) -> (r: (&'a str, &'a str))
    requires
        is_ascii_char(a),
        is_ascii_char(b),
    ensures
        r.0@ + r.1@ == s@,
        free_of(r.0@, a, b),
        r.1@.len() > 0 ==> r.1@[0] == a || r.1@[0] == b,
{
    let at = find_either(s, a, b);
    let (head, tail) = cut(s, at);
    proof {
        assert forall|k: int| 0 <= k < head@.len() implies head@[k] != a && head@[k] != b by {
            if head@[k] == a || head@[k] == b {
                lemma_ascii_char_occurs(head@, k);
                let j = choose|j: int|
                    0 <= j < head.spec_bytes().len() && head.spec_bytes()[j] == head@[k] as u8;
                assert(s.spec_bytes()[j] == head.spec_bytes()[j]);
            }
        }
        if tail@.len() > 0 {
            lemma_encode_empty(tail@);
            assert(tail.spec_bytes()[0] == s.spec_bytes()[at as int]);
            lemma_first_ascii_byte(tail@);
            if tail.spec_bytes()[0] == a as u8 {
                lemma_same_ascii(tail@[0], a);
            } else {
                lemma_same_ascii(tail@[0], b);
            }
        }
    }
    (head, tail)
}

/// Splits `s` around the first occurrence of the ASCII character `c`, which
/// belongs to neither part; `None` when `c` does not occur.
pub fn split_once_char<'a>(s: &'a str, c: char) -> (r: Option<(&'a str, &'a str)>)
    requires
        is_ascii_char(c),
    ensures
        r is None <==> !s@.contains(c),
        r matches Some((before, after)) ==> before@ + seq![c] + after@ == s@ && !before@.contains(
            c,
        ),
{
    let (before, tail) = split_before_either(s, c, c);
    proof {
        assert(!before@.contains(c)) by {
            if before@.contains(c) {
                let k = choose|k: int| 0 <= k < before@.len() && before@[k] == c;
                assert(before@[k] != c);
            }
        }
    }
    match split_first_char(tail) {
        None => {
            proof {
                assert(s@ =~= before@);
            }
            None
        },
        Some((_, after)) => {
            proof {
                assert(before@ + seq![c] + after@ =~= s@);
                assert(s@[before@.len() as int] == c);
            }
            Some((before, after))
        },
    }
}

/// If `s` begins with `prefix`, splits `s` behind it; `None` otherwise.
pub fn strip_prefix<'a>(s: &'a str, prefix: &str) -> (r: Option<(&'a str, &'a str)>)
    ensures
        r is Some <==> prefix@.is_prefix_of(s@),
        r matches Some((head, rest)) ==> head@ == prefix@ && rest@ == s@.skip(prefix@.len() as int),
{
    if starts_with_bytes(s, prefix) {
        proof {
            encode_utf8_valid_utf8(s@);
            encode_utf8_valid_utf8(prefix@);
            assert(s.spec_bytes().subrange(0, prefix.spec_bytes().len() as int)
                =~= prefix.spec_bytes());
            lemma_valid_prefix_is_boundary(s.spec_bytes(), prefix.spec_bytes().len() as int);
        }
        let (head, rest) = cut(s, prefix.as_bytes().len());
        proof {
            lemma_encode_injective(head@, prefix@);
            assert(rest@ =~= s@.skip(prefix@.len() as int));
            assert(s@.subrange(0, prefix@.len() as int) =~= prefix@);
        }
        Some((head, rest))
    } else {
        proof {
            if prefix@.is_prefix_of(s@) {
                lemma_encode_prefix(prefix@, s@);
            }
        }
        None
    }
}

/// ASCII characters with the same byte are the same.
proof fn lemma_same_ascii(c: char, d: char)
    requires
        is_ascii_char(c),
        is_ascii_char(d),
        c as u8 == d as u8,
    ensures
        c == d,
{
}

} // verus!
