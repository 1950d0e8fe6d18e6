use mini_regex::compiler::{split_on_char, tokenize_pattern};
use mini_regex::token::{CompileError, CompiledPattern, Token};

fn chars(s: &str) -> Vec<char> {
    s.chars().collect()
}

fn compiled(anchor_start: bool, anchor_end: bool, tokens: Vec<Token>) -> CompiledPattern {
    CompiledPattern { anchor_start, anchor_end, tokens }
}

#[test]
fn empty_pattern_has_no_tokens_and_no_anchors() {
    assert_eq!(tokenize_pattern(""), Ok(compiled(false, false, vec![])));
}

#[test]
fn literals_come_out_in_source_order() {
    assert_eq!(
        tokenize_pattern("abc"),
        Ok(compiled(
            false,
            false,
            vec![Token::Literal('a'), Token::Literal('b'), Token::Literal('c')],
        ))
    );
}

#[test]
fn both_anchors_are_stripped() {
    assert_eq!(
        tokenize_pattern("^abc$"),
        Ok(compiled(
            true,
            true,
            vec![Token::Literal('a'), Token::Literal('b'), Token::Literal('c')],
        ))
    );
}

#[test]
fn caret_dollar_is_two_anchors_and_no_token() {
    assert_eq!(tokenize_pattern("^$"), Ok(compiled(true, true, vec![])));
}

#[test]
fn lone_caret_is_a_start_anchor_only() {
    assert_eq!(tokenize_pattern("^"), Ok(compiled(true, false, vec![])));
}

#[test]
fn lone_dollar_is_an_end_anchor_only() {
    assert_eq!(tokenize_pattern("$"), Ok(compiled(false, true, vec![])));
}

#[test]
fn caret_and_dollar_inside_the_pattern_are_literals() {
    assert_eq!(
        tokenize_pattern("a^$b"),
        Ok(compiled(
            false,
            false,
            vec![
                Token::Literal('a'),
                Token::Literal('^'),
                Token::Literal('$'),
                Token::Literal('b'),
            ],
        ))
    );
}

#[test]
fn only_the_last_dollar_is_an_anchor() {
    assert_eq!(tokenize_pattern("a$$"), Ok(compiled(false, true, vec![
        Token::Literal('a'),
        Token::Literal('$'),
    ])));
}

#[test]
fn escapes_give_digit_word_and_backslash() {
    assert_eq!(
        tokenize_pattern("\\d\\w\\\\"),
        Ok(compiled(
            false,
            false,
            vec![Token::Digit, Token::Word, Token::Literal('\\')],
        ))
    );
}

#[test]
fn dot_is_a_wildcard() {
    assert_eq!(
        tokenize_pattern("a.c"),
        Ok(compiled(
            false,
            false,
            vec![Token::Literal('a'), Token::Wildcard, Token::Literal('c')],
        ))
    );
}

#[test]
fn unknown_escape_is_an_invalid_escape() {
    assert_eq!(tokenize_pattern("\\z"), Err(CompileError::InvalidEscape));
    assert_eq!(tokenize_pattern("ab\\nc"), Err(CompileError::InvalidEscape));
}

#[test]
fn trailing_backslash_is_an_invalid_escape() {
    assert_eq!(tokenize_pattern("abc\\"), Err(CompileError::InvalidEscape));
    assert_eq!(tokenize_pattern("\\"), Err(CompileError::InvalidEscape));
}

#[test]
fn backslash_before_the_end_anchor_is_an_invalid_escape() {
    assert_eq!(tokenize_pattern("\\$"), Err(CompileError::InvalidEscape));
}

#[test]
fn leading_quantifier_is_a_dangling_quantifier() {
    assert_eq!(tokenize_pattern("+abc"), Err(CompileError::DanglingQuantifier));
    assert_eq!(tokenize_pattern("?x"), Err(CompileError::DanglingQuantifier));
}

#[test]
fn quantifier_right_after_the_start_anchor_is_dangling() {
    assert_eq!(tokenize_pattern("^+a"), Err(CompileError::DanglingQuantifier));
    assert_eq!(tokenize_pattern("^?"), Err(CompileError::DanglingQuantifier));
}

#[test]
fn the_first_error_in_source_order_is_reported() {
    assert_eq!(tokenize_pattern("+\\z"), Err(CompileError::DanglingQuantifier));
    assert_eq!(tokenize_pattern("\\z+"), Err(CompileError::InvalidEscape));
    assert_eq!(tokenize_pattern("a\\q?+"), Err(CompileError::InvalidEscape));
}

#[test]
fn plus_wraps_the_token_before_it() {
    assert_eq!(
        tokenize_pattern("ab+c"),
        Ok(compiled(
            false,
            false,
            vec![
                Token::Literal('a'),
                Token::OneOrMore(Box::new(Token::Literal('b'))),
                Token::Literal('c'),
            ],
        ))
    );
}

#[test]
fn question_mark_wraps_the_token_before_it() {
    assert_eq!(
        tokenize_pattern("\\d?"),
        Ok(compiled(false, false, vec![Token::ZeroOrOne(Box::new(Token::Digit))]))
    );
}

#[test]
fn a_quantifier_after_a_quantifier_wraps_it_again() {
    assert_eq!(
        tokenize_pattern("a+?"),
        Ok(compiled(
            false,
            false,
            vec![Token::ZeroOrOne(Box::new(Token::OneOrMore(Box::new(Token::Literal('a')))))],
        ))
    );
}

#[test]
fn a_quantifier_after_a_group_wraps_the_group() {
    assert_eq!(
        tokenize_pattern("(a|b)+"),
        Ok(compiled(
            false,
            false,
            vec![Token::OneOrMore(Box::new(Token::Alternation(vec![chars("a"), chars("b")])))],
        ))
    );
}

#[test]
fn class_collects_its_characters_verbatim() {
    assert_eq!(
        tokenize_pattern("[abc]"),
        Ok(compiled(false, false, vec![Token::Class(chars("abc"))]))
    );
    assert_eq!(
        tokenize_pattern("[a-c\\d+?.(|]x"),
        Ok(compiled(
            false,
            false,
            vec![Token::Class(chars("a-c\\d+?.(|")), Token::Literal('x')],
        ))
    );
}

#[test]
fn caret_right_after_the_bracket_negates_the_class() {
    assert_eq!(
        tokenize_pattern("[^abc]"),
        Ok(compiled(false, false, vec![Token::NegClass(chars("abc"))]))
    );
}

#[test]
fn caret_later_in_a_class_is_a_member() {
    assert_eq!(
        tokenize_pattern("[a^]"),
        Ok(compiled(false, false, vec![Token::Class(chars("a^"))]))
    );
    assert_eq!(
        tokenize_pattern("[^^]"),
        Ok(compiled(false, false, vec![Token::NegClass(chars("^"))]))
    );
}

#[test]
fn empty_classes_compile() {
    assert_eq!(tokenize_pattern("[]"), Ok(compiled(false, false, vec![Token::Class(vec![])])));
    assert_eq!(tokenize_pattern("[^]"), Ok(compiled(false, false, vec![Token::NegClass(vec![])])));
}

#[test]
fn unterminated_class_takes_the_rest_of_the_pattern() {
    assert_eq!(
        tokenize_pattern("x[abc"),
        Ok(compiled(
            false,
            false,
            vec![Token::Literal('x'), Token::Class(chars("abc"))],
        ))
    );
    assert_eq!(tokenize_pattern("["), Ok(compiled(false, false, vec![Token::Class(vec![])])));
    assert_eq!(tokenize_pattern("[^"), Ok(compiled(false, false, vec![Token::NegClass(vec![])])));
}

#[test]
fn unterminated_class_does_not_hold_the_end_anchor() {
    assert_eq!(
        tokenize_pattern("[ab$"),
        Ok(compiled(false, true, vec![Token::Class(chars("ab"))]))
    );
}

#[test]
fn group_is_split_on_bars() {
    assert_eq!(
        tokenize_pattern("(cat|dog)"),
        Ok(compiled(
            false,
            false,
            vec![Token::Alternation(vec![chars("cat"), chars("dog")])],
        ))
    );
}

#[test]
fn group_content_is_not_tokenized() {
    assert_eq!(
        tokenize_pattern("(a+|\\d|[x]|.)z"),
        Ok(compiled(
            false,
            false,
            vec![
                Token::Alternation(vec![chars("a+"), chars("\\d"), chars("[x]"), chars(".")]),
                Token::Literal('z'),
            ],
        ))
    );
}

#[test]
fn group_ends_at_the_first_closing_parenthesis() {
    assert_eq!(
        tokenize_pattern("((a)b)"),
        Ok(compiled(
            false,
            false,
            vec![
                Token::Alternation(vec![chars("(a")]),
                Token::Literal('b'),
                Token::Literal(')'),
            ],
        ))
    );
}

#[test]
fn empty_group_has_one_empty_option() {
    assert_eq!(
        tokenize_pattern("()"),
        Ok(compiled(false, false, vec![Token::Alternation(vec![vec![]])]))
    );
}

#[test]
fn unterminated_group_takes_the_rest_of_the_pattern() {
    assert_eq!(
        tokenize_pattern("(ab|c"),
        Ok(compiled(
            false,
            false,
            vec![Token::Alternation(vec![chars("ab"), chars("c")])],
        ))
    );
    assert_eq!(
        tokenize_pattern("("),
        Ok(compiled(false, false, vec![Token::Alternation(vec![vec![]])]))
    );
}

#[test]
fn closing_characters_alone_are_literals() {
    assert_eq!(
        tokenize_pattern("])|"),
        Ok(compiled(
            false,
            false,
            vec![Token::Literal(']'), Token::Literal(')'), Token::Literal('|')],
        ))
    );
}

#[test]
fn patterns_are_read_by_character_not_by_byte() {
    assert_eq!(
        tokenize_pattern("é+[ñü](日|本)"),
        Ok(compiled(
            false,
            false,
            vec![
                Token::OneOrMore(Box::new(Token::Literal('é'))),
                Token::Class(chars("ñü")),
                Token::Alternation(vec![chars("日"), chars("本")]),
            ],
        ))
    );
}

#[test]
fn compiling_twice_gives_equal_patterns() {
    for pattern in ["a+", "^abc$", "[^abc]", "\\d+", "(cat|dog)", "+abc", "\\z", "x[ab"] {
        assert_eq!(tokenize_pattern(pattern), tokenize_pattern(pattern));
    }
}

#[test]
fn split_without_separator_is_one_piece() {
    assert_eq!(split_on_char(&chars("abc"), '|'), vec![chars("abc")]);
}

#[test]
fn split_of_empty_text_is_one_empty_piece() {
    assert_eq!(split_on_char(&chars(""), '|'), vec![chars("")]);
}

#[test]
fn split_keeps_empty_pieces() {
    assert_eq!(split_on_char(&chars("|"), '|'), vec![chars(""), chars("")]);
    assert_eq!(
        split_on_char(&chars("a||b|"), '|'),
        vec![chars("a"), chars(""), chars("b"), chars("")]
    );
    assert_eq!(split_on_char(&chars("|a"), '|'), vec![chars(""), chars("a")]);
}

#[test]
fn split_works_on_any_separator() {
    assert_eq!(
        split_on_char(&chars("a,b|c,d"), ','),
        vec![chars("a"), chars("b|c"), chars("d")]
    );
}
