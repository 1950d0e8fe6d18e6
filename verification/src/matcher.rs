//! The backtracking matcher: whether a compiled pattern matches a subject.

use vstd::prelude::*;
use vstd::slice::slice_subrange;
use vstd::pervasive::unreached;
use crate::compiler::{compile, tokenize_pattern};
use crate::token::{CompileError, CompiledPattern, SpecPattern, SpecToken, Token};
use crate::token::{lemma_view_tokens_subrange, view_options, view_tokens};
use crate::text::{char_at, chars_of, contains_char, starts_with};

verus! {

/// Whether `tokens`, in order, match `text` from its first character on.
/// With `anchor_end` the tokens must use up the text; without it, whatever
/// follows the match is ignored.
pub open spec fn match_here(text: Seq<char>, tokens: Seq<SpecToken>, anchor_end: bool) -> bool
    decreases tokens.len(), 0nat,
{
    if tokens.len() == 0 {
        !anchor_end || text.len() == 0
    } else {
        let rest = tokens.drop_first();
        match tokens[0] {
            SpecToken::OneOrMore(inner) => match_one_or_more(text, *inner, rest, anchor_end),
            SpecToken::ZeroOrOne(inner) => {
                ||| text.len() > 0 && inner.accepts(text[0]) && match_here(
                    text.skip(1),
                    rest,
                    anchor_end,
                )
                ||| match_here(text, rest, anchor_end)
            },
            SpecToken::Alternation(options) => exists|k: int|
                #![trigger options[k]]
                0 <= k < options.len() && options[k].is_prefix_of(text) && match_here(
                    text.skip(options[k].len() as int),
                    rest,
                    anchor_end,
                ),
            atom => text.len() > 0 && atom.accepts(text[0]) && match_here(
                text.skip(1),
                rest,
                anchor_end,
            ),
        }
    }
}

/// Whether one or more repetitions of `inner`, followed by `rest`, match
/// `text` from its first character on: the first character must satisfy
/// `inner`, and `rest` must match after some number of characters, of
/// which only the first is held to `inner`.
pub open spec fn match_one_or_more(
    text: Seq<char>,
    inner: SpecToken,
    rest: Seq<SpecToken>,
    anchor_end: bool,
) -> bool
    decreases rest.len(), 1nat,
{
    &&& text.len() > 0
    &&& inner.accepts(text[0])
    &&& exists|i: int|
        #![trigger text.skip(i)]
        1 <= i <= text.len() && match_here(text.skip(i), rest, anchor_end)
}

impl SpecPattern {
    /// Whether the pattern matches `subject`: at its first character where
    /// the pattern is anchored at the start, at some position from the
    /// first character to the end of the subject where it is not.
    pub open spec fn matches(self, subject: Seq<char>) -> bool {
        if self.anchor_start {
            match_here(subject, self.tokens, self.anchor_end)
        } else {
            exists|start: int|
                #![trigger subject.skip(start)]
                0 <= start <= subject.len() && match_here(
                    subject.skip(start),
                    self.tokens,
                    self.anchor_end,
                )
        }
    }
}

/// The membership test of an atomic token: whether `next_char` satisfies
/// `token`. Quantifiers and alternations have no membership test and are
/// not to be passed in.
pub fn matchone(next_char: char, token: &Token) -> (accepted: bool)
    requires
        token@.is_atomic(),
    ensures
        accepted == token@.accepts(next_char),
{
    match token {
        Token::Literal(c) => next_char == *c,
        Token::Digit => '0' <= next_char && next_char <= '9',
        Token::Word => ('0' <= next_char && next_char <= '9') || ('A' <= next_char && next_char
            <= 'Z') || ('a' <= next_char && next_char <= 'z') || next_char == '_',
        Token::Wildcard => next_char != '\n',
        Token::Class(members) => contains_char(members.as_slice(), next_char),
        Token::NegClass(members) => !contains_char(members.as_slice(), next_char),
        _ => unreached(),
    }
}

/// Whether `tokens` match `text` from its first character on, by recursive
/// backtracking. An optional token takes one character before it is tried
/// with none, and the options of an alternation are tried in the order
/// listed. A quantifier around a token that is not atomic is satisfied by no
/// character.
pub fn matchhere(text: &[char], tokens: &[Token], anchor_end: bool) -> (matched: bool)
    ensures
        matched == match_here(text@, view_tokens(tokens@), anchor_end),
    decreases tokens@.len(), 0nat,
{
    if tokens.len() == 0 {
        return !anchor_end || text.len() == 0;
    }
    let rest = slice_subrange(tokens, 1, tokens.len());
    proof {
        lemma_view_tokens_subrange(tokens@, 1, tokens@.len() as int);
    }
    match &tokens[0] {
        Token::OneOrMore(inner) => matchoneormore(text, inner, rest, anchor_end),
        Token::ZeroOrOne(inner) => {
            if text.len() > 0 && inner.is_atomic() && matchone(char_at(text, 0), inner) {
                if matchhere(slice_subrange(text, 1, text.len()), rest, anchor_end) {
                    return true;
                }
            }
            matchhere(text, rest, anchor_end)
        },
        Token::Alternation(options) => {
            let ghost listed = view_options(options@);
            let mut k: usize = 0;
            while k < options.len()
                invariant
                    k <= options@.len(),
                    listed == view_options(options@),
                    tokens@.len() > 0,
                    rest@.len() < tokens@.len(),
                    view_tokens(tokens@)[0] == SpecToken::Alternation(listed),
                    view_tokens(rest@) == view_tokens(tokens@).drop_first(),
                    forall|j: int|
                        #![trigger listed[j]]
                        0 <= j < k ==> !(listed[j].is_prefix_of(text@) && match_here(
                            text@.skip(listed[j].len() as int),
                            view_tokens(rest@),
                            anchor_end,
                        )),
                decreases options@.len() - k,
            {
                let option = options[k].as_slice();
                assert(listed[k as int] == option@);
                if starts_with(text, option) && matchhere(
                    slice_subrange(text, option.len(), text.len()),
                    rest,
                    anchor_end,
                ) {
                    proof {
                        let choices = view_tokens(tokens@)[0]->Alternation_0;
                        assert(choices[k as int].is_prefix_of(text@));
                    }
                    return true;
                }
                k += 1;
            }
            false
        },
        atom => {
            if text.len() > 0 && matchone(char_at(text, 0), atom) {
                matchhere(slice_subrange(text, 1, text.len()), rest, anchor_end)
            } else {
                false
            }
        },
    }
}

/// Whether one or more repetitions of `inner_token`, followed by `tokens`,
/// match `text` from its first character on. The first character must
/// satisfy `inner_token`, which no character does where `inner_token` is
/// not atomic; after it every split point is tried in turn, from one
/// character to the whole text.
pub fn matchoneormore(text: &[char], inner_token: &Token, tokens: &[Token], anchor_end: bool) -> (matched:
    bool)
    ensures
        matched == match_one_or_more(text@, inner_token@, view_tokens(tokens@), anchor_end),
    decreases tokens@.len(), 1nat,
{
    if text.len() == 0 || !inner_token.is_atomic() || !matchone(char_at(text, 0), inner_token) {
        return false;
    }
    let mut i: usize = 0;
    while i < text.len()
        invariant
            i <= text@.len(),
            text@.len() > 0,
            inner_token@.accepts(text@[0]),
            forall|j: int|
                #![trigger text@.skip(j)]
                1 <= j <= i ==> !match_here(text@.skip(j), view_tokens(tokens@), anchor_end),
        decreases text@.len() - i,
    {
        i += 1;
        if matchhere(slice_subrange(text, i, text.len()), tokens, anchor_end) {
            return true;
        }
    }
    false
}

/// Whether `compiled` matches `text`. A pattern anchored at the start is
/// tried at the first character only; any other at every position from the
/// first character to the end of the text, in increasing order.
pub fn is_match(text: &str, compiled: &CompiledPattern) -> (matched: bool)
    ensures
        matched == compiled@.matches(text@),
{
    let owned = chars_of(text);
    let subject = owned.as_slice();
    let tokens = compiled.tokens.as_slice();
    if compiled.anchor_start {
        return matchhere(subject, tokens, compiled.anchor_end);
    }
    let mut start: usize = 0;
    while start < subject.len()
        invariant
            start <= subject@.len(),
            subject@ == text@,
            !compiled.anchor_start,
            view_tokens(tokens@) == compiled@.tokens,
            forall|j: int|
                #![trigger text@.skip(j)]
                0 <= j < start ==> !match_here(text@.skip(j), compiled@.tokens, compiled.anchor_end),
        decreases subject@.len() - start,
    {
        if matchhere(slice_subrange(subject, start, subject.len()), tokens, compiled.anchor_end) {
            return true;
        }
        start += 1;
    }
    matchhere(slice_subrange(subject, start, subject.len()), tokens, compiled.anchor_end)
}

/// What compiling `pattern` and matching the result against `text` gives:
/// the error of the compilation, or whether the pattern matches.
pub open spec fn match_outcome(text: Seq<char>, pattern: Seq<char>) -> Result<bool, CompileError> {
    match compile(pattern) {
        Ok(compiled) => Ok(compiled.matches(text)),
        Err(e) => Err(e),
    }
}

/// Compiles `pattern` and says whether it matches `text`.
pub fn match_pattern(text: &str, pattern: &str) -> (result: Result<bool, CompileError>)
    ensures
        result == match_outcome(text@, pattern@),
{
    match tokenize_pattern(pattern) {
        Ok(compiled) => Ok(is_match(text, &compiled)),
        Err(e) => Err(e),
    }
}

} // verus!
