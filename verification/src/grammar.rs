//! The pattern language, stated over sequences of characters.
//!
//! `.` is a wildcard, `(a|b|c)` is a group of alternatives, and every other run
//! of characters up to the next `.` or `(` is literal text. There is no escape
//! mechanism and groups do not nest.

use vstd::prelude::*;
use crate::text::free_of;
use crate::token::TokenModel;

verus! {

/// Stands for any single character.
pub const WILDCARD: char = '.';

/// Opens a group of alternatives.
pub const GROUP_OPEN: char = '(';

/// Closes a group of alternatives.
pub const GROUP_CLOSE: char = ')';

/// Separates the alternatives of a group.
pub const SEPARATOR: char = '|';

/// The length of the longest prefix of `s` that holds neither `a` nor `b`.
pub open spec fn run_len(s: Seq<char>, a: char, b: char) -> nat
    decreases s.len(),
{
    if s.len() == 0 || s[0] == a || s[0] == b {
        0
    } else {
        1 + run_len(s.drop_first(), a, b)
    }
}

/// The pieces of `s` between the occurrences of `sep`. There is always at
/// least one piece, and a piece may be empty.
pub open spec fn split_on(s: Seq<char>, sep: char) -> Seq<Seq<char>>
    decreases s.len(),
{
    let k = run_len(s, sep, sep) as int;
    if k >= s.len() {
        seq![s]
    } else {
        seq![s.take(k)] + split_on(s.skip(k + 1), sep)
    }
}

/// `parts` with `sep` between each two neighbours.
pub open spec fn join(parts: Seq<Seq<char>>, sep: char) -> Seq<char>
    decreases parts.len(),
{
    if parts.len() == 0 {
        Seq::empty()
    } else if parts.len() == 1 {
        parts[0]
    } else {
        parts[0] + seq![sep] + join(parts.drop_first(), sep)
    }
}

/// `first` in front of `rest`, where there is a `rest`.
pub open spec fn prepend(first: TokenModel, rest: Option<Seq<TokenModel>>) -> Option<
    Seq<TokenModel>,
> {
    match rest {
        Some(tokens) => Some(seq![first] + tokens),
        None => None,
    }
}

/// The tokens that the pattern `s` denotes, or `None` where a group is opened
/// and never closed.
pub open spec fn parse(s: Seq<char>) -> Option<Seq<TokenModel>>
    decreases s.len(),
    via parse_terminates
{
    if s.len() == 0 {
        Some(Seq::empty())
    } else if s[0] == WILDCARD {
        prepend(TokenModel::Wildcard, parse(s.skip(1)))
    } else if s[0] == GROUP_OPEN {
        let inner = s.skip(1);
        let k = run_len(inner, GROUP_CLOSE, GROUP_CLOSE) as int;
        if k >= inner.len() {
            None
        } else {
            prepend(
                TokenModel::Alternatives(split_on(inner.take(k), SEPARATOR)),
                parse(inner.skip(k + 1)),
            )
        }
    } else {
        let k = run_len(s, WILDCARD, GROUP_OPEN) as int;
        prepend(TokenModel::Literal(s.take(k)), parse(s.skip(k)))
    }
}

/// Each step of `parse` leaves less of the pattern.
#[via_fn]
proof fn parse_terminates(s: Seq<char>) {
    lemma_run_len(s, WILDCARD, GROUP_OPEN);
}

/// The pattern text that denotes one token.
pub open spec fn render_token(token: TokenModel) -> Seq<char> {
    match token {
        TokenModel::Literal(text) => text,
        TokenModel::Alternatives(list) => seq![GROUP_OPEN] + join(list, SEPARATOR) + seq![
            GROUP_CLOSE,
        ],
        TokenModel::Wildcard => seq![WILDCARD],
    }
}

/// The pattern text that denotes a token sequence.
pub open spec fn render(tokens: Seq<TokenModel>) -> Seq<char>
    decreases tokens.len(),
{
    if tokens.len() == 0 {
        Seq::empty()
    } else {
        render_token(tokens[0]) + render(tokens.drop_first())
    }
}

/// Whether some `(` in `s` has no `)` anywhere behind it.
pub open spec fn has_unterminated_group(s: Seq<char>) -> bool {
    exists|i: int|
        0 <= i < s.len() && #[trigger] s[i] == GROUP_OPEN && forall|j: int|
            i < j < s.len() ==> s[j] != GROUP_CLOSE
}

/// Whether a token is of the shape that parsing gives: literal text is not
/// empty and holds no `.` and no `(`; a group has at least one alternative,
/// and no alternative holds a `|` or a `)`.
pub open spec fn token_well_formed(token: TokenModel) -> bool {
    match token {
        TokenModel::Literal(text) => text.len() > 0 && free_of(text, WILDCARD, GROUP_OPEN),
        TokenModel::Alternatives(list) => list.len() >= 1 && forall|i: int|
            0 <= i < list.len() ==> free_of(#[trigger] list[i], SEPARATOR, GROUP_CLOSE),
        TokenModel::Wildcard => true,
    }
}

/// `run_len` stops at the first `a` or `b`, or at the end of `s`.
pub proof fn lemma_run_len(s: Seq<char>, a: char, b: char)
    ensures
        run_len(s, a, b) <= s.len(),
        forall|j: int| 0 <= j < run_len(s, a, b) ==> s[j] != a && s[j] != b,
        run_len(s, a, b) < s.len() ==> s[run_len(s, a, b) as int] == a || s[run_len(
            s,
            a,
            b,
        ) as int] == b,
    decreases s.len(),
{
    if s.len() == 0 || s[0] == a || s[0] == b {
    } else {
        let rest = s.drop_first();
        lemma_run_len(rest, a, b);
        assert forall|j: int| 0 <= j < run_len(s, a, b) implies s[j] != a && s[j] != b by {
            if j > 0 {
                assert(s[j] == rest[j - 1]);
            }
        }
        if run_len(s, a, b) < s.len() {
            assert(s[run_len(s, a, b) as int] == rest[run_len(rest, a, b) as int]);
        }
    }
}

/// A prefix of `s` that holds neither `a` nor `b` and is followed by one of
/// them, or by nothing, is the run that `run_len` measures.
pub proof fn lemma_run_len_unique(s: Seq<char>, a: char, b: char, n: int)
    requires
        0 <= n <= s.len(),
        forall|j: int| 0 <= j < n ==> s[j] != a && s[j] != b,
        n < s.len() ==> s[n] == a || s[n] == b,
    ensures
        run_len(s, a, b) == n,
{
    lemma_run_len(s, a, b);
    let m = run_len(s, a, b) as int;
    if m < n {
        assert(s[m] != a && s[m] != b);
    } else if n < m {
        assert(s[n] != a && s[n] != b);
    }
}

/// Where `c` does not occur, the run without it is all of `s`.
pub proof fn lemma_run_len_absent(s: Seq<char>, c: char)
    requires
        !s.contains(c),
    ensures
        run_len(s, c, c) == s.len(),
{
    lemma_run_len(s, c, c);
    let n = run_len(s, c, c) as int;
    if n < s.len() {
        assert(s.contains(s[n]));
    }
}

/// Where `s` is `before`, then `c`, then `after`, and `before` is without `c`,
/// the run without `c` is `before`.
pub proof fn lemma_run_len_split(s: Seq<char>, before: Seq<char>, after: Seq<char>, c: char)
    requires
        before + seq![c] + after == s,
        !before.contains(c),
    ensures
        run_len(s, c, c) == before.len(),
        s.take(before.len() as int) == before,
        s.skip(before.len() as int + 1) == after,
{
    let n = before.len() as int;
    assert forall|j: int| 0 <= j < n implies s[j] != c by {
        assert(s[j] == before[j]);
        assert(before.contains(before[j]));
    }
    assert(s[n] == c);
    lemma_run_len_unique(s, c, c, n);
    assert(s.take(n) =~= before);
    assert(s.skip(n + 1) =~= after);
}

/// Splitting never yields zero pieces.
pub proof fn lemma_split_on_nonempty(s: Seq<char>, sep: char)
    ensures
        split_on(s, sep).len() >= 1,
    decreases s.len(),
{
    let k = run_len(s, sep, sep) as int;
    if k < s.len() {
        lemma_split_on_nonempty(s.skip(k + 1), sep);
    }
}

/// Joining the pieces of a split gives back what was split.
pub proof fn lemma_join_split(s: Seq<char>, sep: char)
    ensures
        join(split_on(s, sep), sep) == s,
    decreases s.len(),
{
    lemma_run_len(s, sep, sep);
    let k = run_len(s, sep, sep) as int;
    if k < s.len() {
        let tail = split_on(s.skip(k + 1), sep);
        let parts = seq![s.take(k)] + tail;
        lemma_split_on_nonempty(s.skip(k + 1), sep);
        lemma_join_split(s.skip(k + 1), sep);
        assert(parts.drop_first() =~= tail);
        assert(s.take(k) + seq![sep] + s.skip(k + 1) =~= s);
    }
}

/// The pieces of a split hold no separator, and none of the characters that
/// the text itself does not hold.
pub proof fn lemma_split_on_pieces(s: Seq<char>, sep: char, other: char, i: int)
    requires
        !s.contains(other),
        0 <= i < split_on(s, sep).len(),
    ensures
        free_of(split_on(s, sep)[i], sep, other),
    decreases s.len(),
{
    lemma_run_len(s, sep, sep);
    let k = run_len(s, sep, sep) as int;
    assert forall|j: int| 0 <= j < s.len() implies s[j] != other by {
        assert(s.contains(s[j]));
    }
    if k < s.len() && i > 0 {
        let rest = s.skip(k + 1);
        assert(!rest.contains(other)) by {
            if rest.contains(other) {
                let j = choose|j: int| 0 <= j < rest.len() && rest[j] == other;
                assert(s[j + k + 1] == other);
            }
        }
        lemma_split_on_pieces(rest, sep, other, i - 1);
    }
}

/// A `(` with no `)` behind it in `s.skip(n)` is one in `s`, and the other way
/// round where the first `n` characters of `s` hold no such `(`.
proof fn lemma_unterminated_skip(s: Seq<char>, n: int)
    requires
        0 <= n <= s.len(),
        forall|i: int|
            0 <= i < n && #[trigger] s[i] == GROUP_OPEN ==> exists|j: int|
                i < j < n && s[j] == GROUP_CLOSE,
    ensures
        has_unterminated_group(s.skip(n)) == has_unterminated_group(s),
{
    let t = s.skip(n);
    if has_unterminated_group(t) {
        let i = choose|i: int|
            0 <= i < t.len() && #[trigger] t[i] == GROUP_OPEN && forall|j: int|
                i < j < t.len() ==> t[j] != GROUP_CLOSE;
        assert(s[i + n] == GROUP_OPEN);
        assert forall|j: int| i + n < j < s.len() implies s[j] != GROUP_CLOSE by {
            assert(t[j - n] == s[j]);
        }
    }
    if has_unterminated_group(s) {
        let i = choose|i: int|
            0 <= i < s.len() && #[trigger] s[i] == GROUP_OPEN && forall|j: int|
                i < j < s.len() ==> s[j] != GROUP_CLOSE;
        assert(i >= n);
        assert(t[i - n] == GROUP_OPEN);
        assert forall|j: int| i - n < j < t.len() implies t[j] != GROUP_CLOSE by {
            assert(t[j] == s[j + n]);
        }
    }
}

/// Rendering undoes parsing: where a pattern parses, writing its tokens out
/// again, with the group and separator characters put back, gives the pattern.
pub proof fn render_inverts_parse(s: Seq<char>)
    requires
        parse(s) is Some,
    ensures
        render(parse(s).unwrap()) == s,
    decreases s.len(),
{
    if s.len() == 0 {
    } else if s[0] == WILDCARD {
        let rest = s.skip(1);
        let tail = parse(rest).unwrap();
        render_inverts_parse(rest);
        assert((seq![TokenModel::Wildcard] + tail).drop_first() =~= tail);
        assert(seq![WILDCARD] + rest =~= s);
    } else if s[0] == GROUP_OPEN {
        let inner = s.skip(1);
        lemma_run_len(inner, GROUP_CLOSE, GROUP_CLOSE);
        let k = run_len(inner, GROUP_CLOSE, GROUP_CLOSE) as int;
        let body = inner.take(k);
        let rest = inner.skip(k + 1);
        let first = TokenModel::Alternatives(split_on(body, SEPARATOR));
        let tail = parse(rest).unwrap();
        render_inverts_parse(rest);
        lemma_join_split(body, SEPARATOR);
        assert((seq![first] + tail).drop_first() =~= tail);
        assert(seq![GROUP_OPEN] + body + seq![GROUP_CLOSE] + rest =~= s);
    } else {
        lemma_run_len(s, WILDCARD, GROUP_OPEN);
        let k = run_len(s, WILDCARD, GROUP_OPEN) as int;
        let rest = s.skip(k);
        let first = TokenModel::Literal(s.take(k));
        let tail = parse(rest).unwrap();
        render_inverts_parse(rest);
        assert((seq![first] + tail).drop_first() =~= tail);
        assert(s.take(k) + rest =~= s);
    }
}

/// A pattern fails to parse exactly when it holds a `(` with no `)` anywhere
/// behind it.
pub proof fn parse_fails_iff_unterminated(s: Seq<char>)
    ensures
        parse(s) is None <==> has_unterminated_group(s),
    decreases s.len(),
{
    if s.len() == 0 {
    } else if s[0] == WILDCARD {
        parse_fails_iff_unterminated(s.skip(1));
        lemma_unterminated_skip(s, 1);
    } else if s[0] == GROUP_OPEN {
        let inner = s.skip(1);
        lemma_run_len(inner, GROUP_CLOSE, GROUP_CLOSE);
        let k = run_len(inner, GROUP_CLOSE, GROUP_CLOSE) as int;
        if k >= inner.len() {
            assert forall|j: int| 0 < j < s.len() implies s[j] != GROUP_CLOSE by {
                assert(s[j] == inner[j - 1]);
            }
            assert(s[0] == GROUP_OPEN);
        } else {
            parse_fails_iff_unterminated(inner.skip(k + 1));
            assert(inner.skip(k + 1) =~= s.skip(k + 2));
            assert(s[k + 1] == inner[k]);
            lemma_unterminated_skip(s, k + 2);
        }
    } else {
        lemma_run_len(s, WILDCARD, GROUP_OPEN);
        let k = run_len(s, WILDCARD, GROUP_OPEN) as int;
        parse_fails_iff_unterminated(s.skip(k));
        lemma_unterminated_skip(s, k);
    }
}

/// Every token of a parsed pattern is well formed.
pub proof fn parsed_tokens_well_formed(s: Seq<char>, i: int)
    requires
        parse(s) is Some,
        0 <= i < parse(s).unwrap().len(),
    ensures
        token_well_formed(parse(s).unwrap()[i]),
    decreases s.len(),
{
    if s[0] == WILDCARD {
        if i > 0 {
            parsed_tokens_well_formed(s.skip(1), i - 1);
        }
    } else if s[0] == GROUP_OPEN {
        let inner = s.skip(1);
        lemma_run_len(inner, GROUP_CLOSE, GROUP_CLOSE);
        let k = run_len(inner, GROUP_CLOSE, GROUP_CLOSE) as int;
        let body = inner.take(k);
        if i > 0 {
            parsed_tokens_well_formed(inner.skip(k + 1), i - 1);
        } else {
            let list = split_on(body, SEPARATOR);
            lemma_split_on_nonempty(body, SEPARATOR);
            assert(!body.contains(GROUP_CLOSE)) by {
                if body.contains(GROUP_CLOSE) {
                    let j = choose|j: int| 0 <= j < body.len() && body[j] == GROUP_CLOSE;
                    assert(inner[j] == GROUP_CLOSE);
                }
            }
            assert forall|j: int| 0 <= j < list.len() implies free_of(
                #[trigger] list[j],
                SEPARATOR,
                GROUP_CLOSE,
            ) by {
                lemma_split_on_pieces(body, SEPARATOR, GROUP_CLOSE, j);
            }
        }
    } else {
        lemma_run_len(s, WILDCARD, GROUP_OPEN);
        let k = run_len(s, WILDCARD, GROUP_OPEN) as int;
        if i > 0 {
            parsed_tokens_well_formed(s.skip(k), i - 1);
        }
    }
}

} // verus!
