use pattern_matcher::{Matcher, MatcherToken};

fn tokens_of(pattern: &str) -> Vec<MatcherToken<'_>> {
    Matcher::new(pattern).unwrap().tokens
}

#[test]
fn empty_pattern_has_no_tokens() {
    let matcher = Matcher::new("").unwrap();
    assert_eq!(matcher.tokens, vec![]);
    assert_eq!(matcher.text, "");
    assert_eq!(matcher.most_tokens_matched, 0);
}

#[test]
fn keeps_the_pattern_text() {
    let matcher = Matcher::new("abc(d|e|f).").unwrap();
    assert_eq!(matcher.text, "abc(d|e|f).");
}

#[test]
fn literal_group_wildcard() {
    assert_eq!(
        tokens_of("abc(d|e|f)."),
        vec![
            MatcherToken::RawText("abc"),
            MatcherToken::OneOfText(vec!["d", "e", "f"]),
            MatcherToken::WildCard,
        ]
    );
}

#[test]
fn only_literal() {
    assert_eq!(tokens_of("hello"), vec![MatcherToken::RawText("hello")]);
}

#[test]
fn only_wildcards() {
    assert_eq!(
        tokens_of("..."),
        vec![MatcherToken::WildCard, MatcherToken::WildCard, MatcherToken::WildCard]
    );
}

#[test]
fn only_a_group() {
    assert_eq!(tokens_of("(x|yz)"), vec![MatcherToken::OneOfText(vec!["x", "yz"])]);
}

#[test]
fn group_at_the_end() {
    assert_eq!(
        tokens_of("ab(c|d)"),
        vec![MatcherToken::RawText("ab"), MatcherToken::OneOfText(vec!["c", "d"])]
    );
}

#[test]
fn empty_group_has_one_empty_alternative() {
    assert_eq!(tokens_of("()"), vec![MatcherToken::OneOfText(vec![""])]);
}

#[test]
fn empty_alternatives_are_kept() {
    assert_eq!(tokens_of("(a||b|)"), vec![MatcherToken::OneOfText(vec!["a", "", "b", ""])]);
    assert_eq!(tokens_of("(|)"), vec![MatcherToken::OneOfText(vec!["", ""])]);
}

#[test]
fn group_without_separator() {
    assert_eq!(tokens_of("(only)"), vec![MatcherToken::OneOfText(vec!["only"])]);
}

#[test]
fn adjacent_groups() {
    assert_eq!(
        tokens_of("(a|b)(c)"),
        vec![MatcherToken::OneOfText(vec!["a", "b"]), MatcherToken::OneOfText(vec!["c"])]
    );
}

#[test]
fn close_and_separator_outside_a_group_are_literal() {
    assert_eq!(tokens_of("a)b"), vec![MatcherToken::RawText("a)b")]);
    assert_eq!(tokens_of("a|b"), vec![MatcherToken::RawText("a|b")]);
    assert_eq!(tokens_of(")"), vec![MatcherToken::RawText(")")]);
}

#[test]
fn wildcard_and_open_inside_a_group_are_literal() {
    assert_eq!(tokens_of("(a.b|c)"), vec![MatcherToken::OneOfText(vec!["a.b", "c"])]);
    assert_eq!(tokens_of("(()"), vec![MatcherToken::OneOfText(vec!["("])]);
}

#[test]
fn group_closes_at_the_first_close() {
    assert_eq!(
        tokens_of("(a)b)"),
        vec![MatcherToken::OneOfText(vec!["a"]), MatcherToken::RawText("b)")]
    );
}

#[test]
fn literal_ends_at_wildcard_or_group() {
    assert_eq!(
        tokens_of("ab.cd(e)fg"),
        vec![
            MatcherToken::RawText("ab"),
            MatcherToken::WildCard,
            MatcherToken::RawText("cd"),
            MatcherToken::OneOfText(vec!["e"]),
            MatcherToken::RawText("fg"),
        ]
    );
}

#[test]
fn characters_of_several_bytes() {
    assert_eq!(
        tokens_of("é💪.(ü|ö💪)ß"),
        vec![
            MatcherToken::RawText("é💪"),
            MatcherToken::WildCard,
            MatcherToken::OneOfText(vec!["ü", "ö💪"]),
            MatcherToken::RawText("ß"),
        ]
    );
}

#[test]
fn unterminated_group_is_refused() {
    assert_eq!(Matcher::new("("), None);
    assert_eq!(Matcher::new("a(b|c"), None);
    assert_eq!(Matcher::new(".("), None);
    assert_eq!(Matcher::new("(a)(b"), None);
    assert_eq!(Matcher::new("(a)b(c|d|"), None);
    assert_eq!(Matcher::new("é(ü"), None);
}

#[test]
fn tokens_written_out_give_the_pattern() {
    let patterns = ["", "abc(d|e|f).", "(a||b|)", "a)b|c", "..(x)(y|z)tail", "é💪.(ü|ö💪)ß", "()"];
    for pattern in patterns {
        let matcher = Matcher::new(pattern).unwrap();
        let mut written = String::new();
        for token in &matcher.tokens {
            match token {
                MatcherToken::RawText(text) => written.push_str(text),
                MatcherToken::OneOfText(list) => {
                    written.push('(');
                    written.push_str(&list.join("|"));
                    written.push(')');
                }
                MatcherToken::WildCard => written.push('.'),
            }
        }
        assert_eq!(written, pattern);
    }
}

#[test]
fn tokens_are_slices_of_the_pattern() {
    let pattern = String::from("ab(cd|e).fg");
    let matcher = Matcher::new(&pattern).unwrap();
    assert_eq!(matcher.text.as_ptr(), pattern.as_ptr());
    match &matcher.tokens[0] {
        MatcherToken::RawText(text) => assert_eq!(text.as_ptr(), pattern[0..].as_ptr()),
        other => panic!("unexpected token {:?}", other),
    }
    match &matcher.tokens[1] {
        MatcherToken::OneOfText(list) => {
            assert_eq!(list[0].as_ptr(), pattern[3..].as_ptr());
            assert_eq!(list[1].as_ptr(), pattern[6..].as_ptr());
        }
        other => panic!("unexpected token {:?}", other),
    }
    match &matcher.tokens[3] {
        MatcherToken::RawText(text) => assert_eq!(text.as_ptr(), pattern[9..].as_ptr()),
        other => panic!("unexpected token {:?}", other),
    }
}
