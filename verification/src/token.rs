//! The tokens of a compiled pattern and their mathematical model.

use vstd::prelude::*;

verus! {

/// One compiled unit of a pattern. Each string in it borrows from the pattern
/// text; a token owns no character data.
#[derive(Debug, PartialEq, Eq)]
pub enum MatcherToken<'a> {
    /// A run of ordinary characters that must appear exactly.
    RawText(&'a str),
    /// A group such as `(one|two|three)`: any one of the listed strings,
    /// tried in the order in which they are listed.
    OneOfText(Vec<&'a str>),
    /// `.`: any single character.
    WildCard,
}

/// What a token stands for: its kind and the characters it holds.
pub enum TokenModel {
    /// Text that must appear exactly.
    Literal(Seq<char>),
    /// Texts of which one must appear, tried in this order.
    Alternatives(Seq<Seq<char>>),
    /// Any one character.
    Wildcard,
}

/// The character sequences of a list of string slices, in order.
pub open spec fn texts_of(list: Seq<&str>) -> Seq<Seq<char>> {
    Seq::new(list.len(), |i: int| list[i]@)
}

impl<'a> View for MatcherToken<'a> {
    type V = TokenModel;

    open spec fn view(&self) -> TokenModel {
        match *self {
            MatcherToken::RawText(text) => TokenModel::Literal(text@),
            MatcherToken::OneOfText(list) => TokenModel::Alternatives(texts_of(list@)),
            MatcherToken::WildCard => TokenModel::Wildcard,
        }
    }
}

/// The models of a token sequence, in order.
pub open spec fn models_of(tokens: Seq<MatcherToken<'_>>) -> Seq<TokenModel> {
    Seq::new(tokens.len(), |i: int| tokens[i]@)
}

} // verus!
