//! The compiled matcher: building it from pattern text, and applying it.

use vstd::prelude::*;
use crate::grammar::{
    has_unterminated_group, lemma_run_len_absent, lemma_run_len_split, lemma_run_len_unique,
    parse, parse_fails_iff_unterminated, parsed_tokens_well_formed, prepend, render,
    render_inverts_parse, split_on, token_well_formed, GROUP_CLOSE, GROUP_OPEN, SEPARATOR,
    WILDCARD,
};
use crate::matching::{match_trace, token_takes};
use crate::text::{split_before_either, split_once_char, strip_char};
use crate::token::{models_of, texts_of, MatcherToken, TokenModel};

verus! {

/// A compiled pattern, together with a statistic of its most recent use.
#[derive(Debug, PartialEq, Eq)]
pub struct Matcher<'a> {
    /// The pattern text that was compiled.
    pub text: &'a str,
    /// The tokens of the pattern, in the order in which they appear in it.
    pub tokens: Vec<MatcherToken<'a>>,
    /// How many tokens the most recent call of `match_string` matched.
    pub most_tokens_matched: usize,
}

/// The tokens `done`, followed by `rest` where there is one.
pub open spec fn prepend_all(done: Seq<TokenModel>, rest: Option<Seq<TokenModel>>) -> Option<
    Seq<TokenModel>,
> {
    match rest {
        Some(tokens) => Some(done + tokens),
        None => None,
    }
}

/// The pieces of the candidate text in an answer of `match_string`, in order.
pub open spec fn pieces_of(answer: Seq<(&MatcherToken<'_>, &str)>) -> Seq<Seq<char>> {
    Seq::new(answer.len(), |k: int| answer[k].1@)
}

/// Splits the inside of a group into its alternatives.
pub fn split_alternatives<'a>(body: &'a str) -> (list: Vec<&'a str>)
    ensures
        texts_of(list@) == split_on(body@, SEPARATOR),
{
    let mut list: Vec<&'a str> = Vec::new();
    let mut rest = body;
    let mut done = false;
    while !done
        invariant
            !done ==> split_on(body@, SEPARATOR) == texts_of(list@) + split_on(rest@, SEPARATOR),
            done ==> split_on(body@, SEPARATOR) == texts_of(list@),
        decreases (if done { 0 } else { rest@.len() + 1 }),
    {
        let ghost before_list = list@;
        match split_once_char(rest, SEPARATOR) {
            None => {
                proof {
                    lemma_run_len_absent(rest@, SEPARATOR);
                }
                list.push(rest);
                done = true;
                proof {
                    assert(texts_of(list@) =~= texts_of(before_list) + seq![rest@]);
                }
            },
            Some((piece, after)) => {
                proof {
                    lemma_run_len_split(rest@, piece@, after@, SEPARATOR);
                }
                list.push(piece);
                proof {
                    assert(texts_of(list@) =~= texts_of(before_list) + seq![piece@]);
                    assert(texts_of(before_list) + (seq![piece@] + split_on(after@, SEPARATOR))
                        =~= texts_of(list@) + split_on(after@, SEPARATOR));
                }
                rest = after;
            },
        }
    }
    list
}

impl<'a> Matcher<'a> {
    /// Whether the tokens are those that the pattern text denotes.
    pub open spec fn wf(&self) -> bool {
        parse(self.text@) == Some(models_of(self.tokens@))
    }

    /// Whether `answer`, with the matcher `after` it, is the outcome of matching
    /// this matcher against `string`: the pieces are those that the tokens match,
    /// each is paired with its token, and of the matcher only the statistic has
    /// changed, to the number of pieces.
    pub open spec fn answers(
        &self,
        string: Seq<char>,
        answer: Seq<(&MatcherToken<'a>, &str)>,
        after: Matcher<'a>,
    ) -> bool {
        &&& pieces_of(answer) == match_trace(models_of(self.tokens@), string)
        &&& forall|k: int| 0 <= k < answer.len() ==> *(#[trigger] answer[k]).0 == self.tokens@[k]
        &&& after.tokens == self.tokens
        &&& after.text == self.text
        &&& after.most_tokens_matched == answer.len()
    }

    /// Compiles the pattern `text`.
    ///
    /// This fails exactly when the pattern opens a group that it never closes.
    /// Otherwise the tokens are those that the pattern denotes, and written out
    /// again they give the pattern text.
    pub fn new(text: &'a str) -> (r: Option<Matcher<'a>>)
        ensures
            r is None <==> has_unterminated_group(text@),
            r matches Some(m) ==> {
                &&& m.text == text
                &&& m.wf()
                &&& render(models_of(m.tokens@)) == text@
                &&& forall|k: int|
                    0 <= k < m.tokens@.len() ==> token_well_formed(#[trigger] m.tokens@[k]@)
                &&& m.most_tokens_matched == 0
            },
    {
        let mut tokens: Vec<MatcherToken<'a>> = Vec::new();
        let mut leftovers = text;
        while !leftovers.is_empty()
            invariant
                parse(text@) == prepend_all(models_of(tokens@), parse(leftovers@)),
            decreases leftovers@.len(),
        {
            let ghost done = tokens@;
            let ghost current = leftovers@;
            if let Some(rest) = strip_char(leftovers, WILDCARD) {
                tokens.push(MatcherToken::WildCard);
                leftovers = rest;
                proof {
                    assert(models_of(tokens@) =~= models_of(done).push(TokenModel::Wildcard));
                    lemma_prepend_all_push(models_of(done), TokenModel::Wildcard, parse(rest@));
                }
            } else if let Some(inner) = strip_char(leftovers, GROUP_OPEN) {
                match split_once_char(inner, GROUP_CLOSE) {
                    None => {
                        proof {
                            lemma_run_len_absent(inner@, GROUP_CLOSE);
                            parse_fails_iff_unterminated(text@);
                        }
                        return None;
                    },
                    Some((body, after)) => {
                        proof {
                            lemma_run_len_split(inner@, body@, after@, GROUP_CLOSE);
                        }
                        let list = split_alternatives(body);
                        let ghost model = TokenModel::Alternatives(texts_of(list@));
                        tokens.push(MatcherToken::OneOfText(list));
                        leftovers = after;
                        proof {
                            assert(models_of(tokens@) =~= models_of(done).push(model));
                            lemma_prepend_all_push(models_of(done), model, parse(after@));
                        }
                    },
                }
            } else {
                let (literal, rest) = split_before_either(leftovers, WILDCARD, GROUP_OPEN);
                proof {
                    lemma_run_len_unique(current, WILDCARD, GROUP_OPEN, literal@.len() as int);
                    assert(current.take(literal@.len() as int) =~= literal@);
                    assert(current.skip(literal@.len() as int) =~= rest@);
                }
                let ghost model = TokenModel::Literal(literal@);
                tokens.push(MatcherToken::RawText(literal));
                leftovers = rest;
                proof {
                    assert(models_of(tokens@) =~= models_of(done).push(model));
                    lemma_prepend_all_push(models_of(done), model, parse(rest@));
                }
            }
        }
        proof {
            assert(models_of(tokens@) + Seq::<TokenModel>::empty() =~= models_of(tokens@));
            parse_fails_iff_unterminated(text@);
            render_inverts_parse(text@);
            assert forall|k: int| 0 <= k < tokens@.len() implies token_well_formed(
                #[trigger] tokens@[k]@,
            ) by {
                parsed_tokens_well_formed(text@, k);
                assert(models_of(tokens@)[k] == tokens@[k]@);
            }
        }
        Some(Matcher { text, tokens, most_tokens_matched: 0 })
    }

    /// Matches the tokens, in order, against the front of `string`.
    ///
    /// The answer pairs each matched token with the piece of `string` that it
    /// took, and ends before the first token that does not match. Its length
    /// replaces `most_tokens_matched`, whatever that was.
    pub fn match_string<'b, 'c>(&'b mut self, string: &'c str) -> (answer: Vec<
        (&'b MatcherToken<'a>, &'c str),
    >)
        ensures
            old(self).answers(string@, answer@, *final(self)),
            final(self).most_tokens_matched == answer@.len(),
            answer@.len() <= old(self).tokens@.len(),
            old(self).wf() ==> final(self).wf(),
    {
        let mut answer: Vec<(&'b MatcherToken<'a>, &'c str)> = Vec::new();
        let mut substring = string;
        let n: usize = self.tokens.len();
        let mut i: usize = 0;
        let mut stopped = false;
        let ghost all = models_of(self.tokens@);
        proof {
            assert(all.skip(0) =~= all);
            assert(pieces_of(answer@) + match_trace(all, string@) =~= match_trace(all, string@));
        }
        while i < n && !stopped
            invariant
                n == self.tokens@.len(),
                all == models_of(self.tokens@),
                i <= n,
                answer@.len() == i,
                forall|k: int| 0 <= k < i ==> *(#[trigger] answer@[k]).0 == self.tokens@[k],
                match_trace(all, string@) == pieces_of(answer@) + match_trace(
                    all.skip(i as int),
                    substring@,
                ),
                stopped ==> i < n && token_takes(all[i as int], substring@) is None,
            decreases n - i + (if stopped { 0int } else { 1int }),
        {
            let token: &'b MatcherToken<'a> = &self.tokens[i];
            let ghost before = answer@;
            proof {
                assert(all.skip(i as int)[0] == token@);
                assert(all.skip(i as int).drop_first() =~= all.skip(i + 1));
            }
            match token.match_front(substring) {
                Some((piece, rest)) => {
                    answer.push((token, piece));
                    proof {
                        assert(pieces_of(answer@) =~= pieces_of(before).push(piece@));
                        assert(pieces_of(before) + (seq![piece@] + match_trace(
                            all.skip(i + 1),
                            rest@,
                        )) =~= pieces_of(answer@) + match_trace(all.skip(i + 1), rest@));
                    }
                    substring = rest;
                    i = i + 1;
                },
                None => {
                    stopped = true;
                },
            }
        }
        proof {
            assert(match_trace(all.skip(i as int), substring@) =~= Seq::<Seq<char>>::empty());
            assert(pieces_of(answer@) + Seq::<Seq<char>>::empty() =~= pieces_of(answer@));
        }
        self.most_tokens_matched = answer.len();
        answer
    }
}

/// Matching is repeatable: a second call with the same candidate gives the
/// same tokens and pieces as the first and leaves the same statistic, whatever
/// the statistic was before the first call.
pub proof fn match_string_is_repeatable<'a>(
    before: Matcher<'a>,
    string: Seq<char>,
    first: Seq<(&MatcherToken<'a>, &str)>,
    between: Matcher<'a>,
    second: Seq<(&MatcherToken<'a>, &str)>,
    after: Matcher<'a>,
)
    requires
        before.answers(string, first, between),
        between.answers(string, second, after),
    ensures
        first.len() == second.len(),
        forall|k: int| 0 <= k < first.len() ==> *(#[trigger] first[k]).0 == *second[k].0,
        pieces_of(first) == pieces_of(second),
        after.most_tokens_matched == between.most_tokens_matched,
        after.tokens == before.tokens,
{
    assert(pieces_of(first).len() == pieces_of(second).len());
}

/// Moving a token from the front of what is still to come to the end of what
/// is done changes nothing.
pub proof fn lemma_prepend_all_push(
    done: Seq<TokenModel>,
    token: TokenModel,
    rest: Option<Seq<TokenModel>>,
)
    ensures
        prepend_all(done.push(token), rest) == prepend_all(done, prepend(token, rest)),
{
    if let Some(tokens) = rest {
        assert(done.push(token) + tokens =~= done + (seq![token] + tokens));
    }
}

} // verus!
