//! Tokens, compiled patterns, and their mathematical models.

use vstd::prelude::*;

verus! {

/// The model of a [`Token`]: the same tree, over sequences of characters.
pub enum SpecToken {
    Literal(char),
    Digit,
    Word,
    Wildcard,
    Class(Seq<char>),
    NegClass(Seq<char>),
    OneOrMore(Box<SpecToken>),
    ZeroOrOne(Box<SpecToken>),
    Alternation(Seq<Seq<char>>),
}

/// One compiled unit of pattern syntax.
#[derive(Debug, PartialEq, Eq)]
pub enum Token {
    /// Matches exactly this character.
    Literal(char),
    /// Matches an ASCII digit.
    Digit,
    /// Matches an ASCII letter, an ASCII digit or an underscore.
    Word,
    /// Matches any character except a newline.
    Wildcard,
    /// Matches a character that occurs in the list.
    Class(Vec<char>),
    /// Matches a character that does not occur in the list.
    NegClass(Vec<char>),
    /// One or more repetitions of the wrapped token.
    OneOrMore(Box<Token>),
    /// Zero or one occurrence of the wrapped token.
    ZeroOrOne(Box<Token>),
    /// A choice between literal strings, tried in the order listed.
    Alternation(Vec<Vec<char>>),
}

/// Why a pattern could not be compiled.
#[derive(Debug, Clone, Copy, PartialEq, Eq)]
pub enum CompileError {
    /// A backslash is followed by a character other than `d`, `w` or `\`,
    /// or is the last character of the pattern.
    InvalidEscape,
    /// A `+` or `?` has no token before it to wrap.
    DanglingQuantifier,
}

/// The model of a [`CompiledPattern`].
pub struct SpecPattern {
    pub anchor_start: bool,
    pub anchor_end: bool,
    pub tokens: Seq<SpecToken>,
}

/// A compiled pattern: the two anchor flags and the tokens in source order.
#[derive(Debug, PartialEq, Eq)]
pub struct CompiledPattern {
    /// A match must begin at the first character of the subject.
    pub anchor_start: bool,
    /// A match must end at the end of the subject.
    pub anchor_end: bool,
    pub tokens: Vec<Token>,
}

/// The models of a list of literal strings.
pub open spec fn view_options(options: Seq<Vec<char>>) -> Seq<Seq<char>> {
    Seq::new(options.len(), |i: int| options[i]@)
}

/// The models of a list of tokens.
pub open spec fn view_tokens(tokens: Seq<Token>) -> Seq<SpecToken> {
    Seq::new(tokens.len(), |i: int| tokens[i]@)
}

impl View for Token {
    type V = SpecToken;

    open spec fn view(&self) -> SpecToken
        decreases self,
    {
        match self {
            Token::Literal(c) => SpecToken::Literal(*c),
            Token::Digit => SpecToken::Digit,
            Token::Word => SpecToken::Word,
            Token::Wildcard => SpecToken::Wildcard,
            Token::Class(members) => SpecToken::Class(members@),
            Token::NegClass(members) => SpecToken::NegClass(members@),
            Token::OneOrMore(inner) => SpecToken::OneOrMore(Box::new((**inner).view())),
            Token::ZeroOrOne(inner) => SpecToken::ZeroOrOne(Box::new((**inner).view())),
            Token::Alternation(options) => SpecToken::Alternation(view_options(options@)),
        }
    }
}

/// The models of a list with one more token are the models of the list
/// with the token's model appended.
pub proof fn lemma_view_tokens_push(tokens: Seq<Token>, token: Token)
    ensures
        view_tokens(tokens.push(token)) == view_tokens(tokens).push(token@),
{
    assert(view_tokens(tokens.push(token)) =~= view_tokens(tokens).push(token@));
}

/// The models of a list without its last token are the models of the list
/// without the last of them.
pub proof fn lemma_view_tokens_drop_last(tokens: Seq<Token>)
    requires
        tokens.len() > 0,
    ensures
        view_tokens(tokens.drop_last()) == view_tokens(tokens).drop_last(),
        view_tokens(tokens).last() == tokens.last()@,
{
    assert(view_tokens(tokens.drop_last()) =~= view_tokens(tokens).drop_last());
}

/// The models of a part of a list are that part of the list's models.
pub proof fn lemma_view_tokens_subrange(tokens: Seq<Token>, from: int, to: int)
    requires
        0 <= from <= to <= tokens.len(),
    ensures
        view_tokens(tokens.subrange(from, to)) == view_tokens(tokens).subrange(from, to),
{
    assert(view_tokens(tokens.subrange(from, to)) =~= view_tokens(tokens).subrange(from, to));
}

impl View for CompiledPattern {
    type V = SpecPattern;

    open spec fn view(&self) -> SpecPattern {
        SpecPattern {
            anchor_start: self.anchor_start,
            anchor_end: self.anchor_end,
            tokens: view_tokens(self.tokens@),
        }
    }
}

impl SpecToken {
    /// A token that stands for exactly one character of the subject.
    pub open spec fn is_atomic(self) -> bool {
        match self {
            SpecToken::OneOrMore(_) | SpecToken::ZeroOrOne(_) | SpecToken::Alternation(_) => false,
            _ => true,
        }
    }

    /// The membership test: whether `c` satisfies the token. Only an atomic
    /// token has one; no character satisfies any other token.
    pub open spec fn accepts(self, c: char) -> bool {
        match self {
            SpecToken::Literal(l) => c == l,
            SpecToken::Digit => is_ascii_digit(c),
            SpecToken::Word => is_ascii_alphanumeric(c) || c == '_',
            SpecToken::Wildcard => c != '\n',
            SpecToken::Class(members) => members.contains(c),
            SpecToken::NegClass(members) => !members.contains(c),
            _ => false,
        }
    }
}

/// `0` to `9`.
pub open spec fn is_ascii_digit(c: char) -> bool {
    '0' <= c <= '9'
}

/// `0` to `9`, `A` to `Z`, `a` to `z`.
pub open spec fn is_ascii_alphanumeric(c: char) -> bool {
    ||| '0' <= c <= '9'
    ||| 'A' <= c <= 'Z'
    ||| 'a' <= c <= 'z'
}

impl Token {
    /// Whether the token stands for exactly one character of the subject.
    pub fn is_atomic(&self) -> (atomic: bool)
        ensures
            atomic == self@.is_atomic(),
    {
        match self {
            Token::OneOrMore(_) | Token::ZeroOrOne(_) | Token::Alternation(_) => false,
            _ => true,
        }
    }
}

} // verus!
