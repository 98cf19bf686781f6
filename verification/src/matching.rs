//! What it means for tokens to match the front of a candidate text.
//!
//! Tokens are taken in order. Each takes some characters from the front of what
//! the tokens before it left over; the first token that cannot ends the match.
//! No token is skipped and no earlier choice is revisited.

use vstd::prelude::*;
use crate::text::{split_first_char, strip_prefix};
use crate::token::{texts_of, MatcherToken, TokenModel};

verus! {

/// The length of the first entry of `list` that `s` begins with, or `None`
/// where `s` begins with none of them.
pub open spec fn first_prefix_len(list: Seq<Seq<char>>, s: Seq<char>) -> Option<nat>
    decreases list.len(),
{
    if list.len() == 0 {
        None
    } else if list[0].is_prefix_of(s) {
        Some(list[0].len())
    } else {
        first_prefix_len(list.drop_first(), s)
    }
}

/// How many characters `token` takes from the front of `s`, or `None` where
/// it does not match there. A wildcard does not match the empty text.
pub open spec fn token_takes(token: TokenModel, s: Seq<char>) -> Option<nat> {
    match token {
        TokenModel::Literal(text) => if text.is_prefix_of(s) {
            Some(text.len())
        } else {
            None
        },
        TokenModel::Alternatives(list) => first_prefix_len(list, s),
        TokenModel::Wildcard => if s.len() > 0 {
            Some(1)
        } else {
            None
        },
    }
}

/// The pieces of `s` that the tokens match, one for each token up to the first
/// that does not match.
pub open spec fn match_trace(tokens: Seq<TokenModel>, s: Seq<char>) -> Seq<Seq<char>>
    decreases tokens.len(),
{
    if tokens.len() == 0 {
        Seq::empty()
    } else {
        match token_takes(tokens[0], s) {
            None => Seq::empty(),
            Some(n) => seq![s.take(n as int)] + match_trace(tokens.drop_first(), s.skip(n as int)),
        }
    }
}

/// The total length of the first `k` pieces of `trace`.
pub open spec fn taken(trace: Seq<Seq<char>>, k: int) -> nat
    decreases k,
{
    if k <= 0 || trace.len() == 0 {
        0
    } else {
        trace[0].len() + taken(trace.drop_first(), k - 1)
    }
}

/// No more pieces are matched than there are tokens.
pub proof fn trace_within_tokens(tokens: Seq<TokenModel>, s: Seq<char>)
    ensures
        match_trace(tokens, s).len() <= tokens.len(),
    decreases tokens.len(),
{
    if tokens.len() > 0 {
        if let Some(n) = token_takes(tokens[0], s) {
            trace_within_tokens(tokens.drop_first(), s.skip(n as int));
        }
    }
}

/// The pieces follow the tokens one by one: the pieces lie in `s` one behind
/// the other from its start, each piece is what its token takes from the text
/// that the pieces before it left over, and the token behind the last piece,
/// where there is one, does not match what is left. So nothing is matched
/// behind a token that failed.
pub proof fn trace_follows_tokens(tokens: Seq<TokenModel>, s: Seq<char>, k: int)
    requires
        0 <= k <= match_trace(tokens, s).len(),
    ensures
        match_trace(tokens, s).len() <= tokens.len(),
        taken(match_trace(tokens, s), k) <= s.len(),
        k < match_trace(tokens, s).len() ==> {
            let trace = match_trace(tokens, s);
            let start = taken(trace, k) as int;
            &&& token_takes(tokens[k], s.skip(start)) == Some(trace[k].len())
            &&& start + trace[k].len() <= s.len()
            &&& trace[k] == s.subrange(start, start + trace[k].len())
        },
        k == match_trace(tokens, s).len() && k < tokens.len() ==> token_takes(
            tokens[k],
            s.skip(taken(match_trace(tokens, s), k) as int),
        ) is None,
    decreases k,
{
    trace_within_tokens(tokens, s);
    let trace = match_trace(tokens, s);
    if tokens.len() == 0 {
    } else if k == 0 {
        assert(s.skip(0) =~= s);
        lemma_token_takes_bound(tokens[0], s);
        if let Some(n) = token_takes(tokens[0], s) {
            assert(s.take(n as int) =~= s.subrange(0, n as int));
        }
    } else {
        lemma_token_takes_bound(tokens[0], s);
        let n = token_takes(tokens[0], s).unwrap() as int;
        let rest_tokens = tokens.drop_first();
        let rest = s.skip(n);
        let rest_trace = match_trace(rest_tokens, rest);
        assert(trace.drop_first() =~= rest_trace);
        trace_follows_tokens(rest_tokens, rest, k - 1);
        let start = taken(rest_trace, k - 1) as int;
        assert(taken(trace, k) == n + start);
        assert(rest.skip(start) =~= s.skip(n + start));
        if k < trace.len() {
            assert(trace[k] == rest_trace[k - 1]);
            assert(rest_tokens[k - 1] == tokens[k]);
            assert(rest.subrange(start, start + trace[k].len()) =~= s.subrange(
                n + start,
                n + start + trace[k].len(),
            ));
        } else if k < tokens.len() {
            assert(rest_tokens[k - 1] == tokens[k]);
        }
    }
}

/// A token never takes more than there is.
pub proof fn lemma_token_takes_bound(token: TokenModel, s: Seq<char>)
    ensures
        token_takes(token, s) matches Some(n) ==> n <= s.len(),
{
    if let TokenModel::Alternatives(list) = token {
        lemma_first_prefix_len_bound(list, s);
    }
}

/// The entry that `first_prefix_len` finds is no longer than `s`.
pub proof fn lemma_first_prefix_len_bound(list: Seq<Seq<char>>, s: Seq<char>)
    ensures
        first_prefix_len(list, s) matches Some(n) ==> n <= s.len(),
    decreases list.len(),
{
    if list.len() > 0 && !list[0].is_prefix_of(s) {
        lemma_first_prefix_len_bound(list.drop_first(), s);
    }
}

impl<'a> MatcherToken<'a> {
    /// Matches this token against the front of `s`: the piece that it takes and
    /// what is left of `s` behind it, or `None` where it does not match.
    pub fn match_front<'c>(&self, s: &'c str) -> (r: Option<(&'c str, &'c str)>)
        ensures
            r is Some <==> token_takes(self@, s@) is Some,
            r matches Some((piece, rest)) ==> {
                let n = token_takes(self@, s@).unwrap() as int;
                piece@ == s@.take(n) && rest@ == s@.skip(n)
            },
    {
        match self {
            MatcherToken::RawText(text) => {
                let r = strip_prefix(s, text);
                proof {
                    if text@.is_prefix_of(s@) {
                        assert(s@.take(text@.len() as int) =~= text@);
                    }
                }
                r
            },
            MatcherToken::OneOfText(list) => {
                let mut j: usize = 0;
                proof {
                    assert(texts_of(list@).skip(0) =~= texts_of(list@));
                }
                while j < list.len()
                    invariant
                        j <= list.len(),
                        self@ == TokenModel::Alternatives(texts_of(list@)),
                        first_prefix_len(texts_of(list@), s@) == first_prefix_len(
                            texts_of(list@).skip(j as int),
                            s@,
                        ),
                    decreases list.len() - j,
                {
                    let ghost remaining = texts_of(list@).skip(j as int);
                    proof {
                        assert(remaining[0] == list@[j as int]@);
                        assert(remaining.drop_first() =~= texts_of(list@).skip(j + 1));
                    }
                    let r = strip_prefix(s, list[j]);
                    if r.is_some() {
                        proof {
                            assert(s@.take(list@[j as int]@.len() as int) =~= list@[j as int]@);
                        }
                        return r;
                    }
                    j = j + 1;
                }
                None
            },
            MatcherToken::WildCard => split_first_char(s),
        }
    }
}

} // verus!
