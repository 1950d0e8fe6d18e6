//! The pattern compiler: from pattern text to anchor flags and tokens.

use vstd::prelude::*;
use vstd::slice::{slice_subrange, slice_to_vec};
use crate::token::{CompileError, CompiledPattern, SpecPattern, SpecToken, Token};
use crate::token::{lemma_view_tokens_drop_last, lemma_view_tokens_push, view_options, view_tokens};
use crate::text::{char_at, chars_of};

verus! {

/// The number of characters of `s` that stand before its first `stop`:
/// all of them where `s` holds no `stop`.
pub open spec fn span_until(s: Seq<char>, stop: char) -> nat
    decreases s.len(),
{
    if s.len() == 0 || s[0] == stop {
        0
    } else {
        1 + span_until(s.drop_first(), stop)
    }
}

/// The pieces of `s` between its separators. A text without a separator is
/// one piece, and so is the empty text; `n` separators give `n + 1` pieces.
pub open spec fn split_on(s: Seq<char>, sep: char) -> Seq<Seq<char>>
    decreases s.len(),
{
    if s.len() == 0 {
        seq![Seq::<char>::empty()]
    } else {
        let before = split_on(s.drop_last(), sep);
        if s.last() == sep {
            before.push(Seq::<char>::empty())
        } else {
            before.drop_last().push(before.last().push(s.last()))
        }
    }
}

/// One unit of pattern syntax, as the scan meets it.
pub enum Lexeme {
    /// A token of its own.
    Token(SpecToken),
    /// `+`: wraps the token before it.
    Repeat,
    /// `?`: wraps the token before it.
    Optional,
    /// A backslash with nothing, or with an unknown character, after it.
    BadEscape,
}

/// The position just after a bracketed part whose content ends at `end`:
/// past the closing character, or the end of the pattern where none closes.
pub open spec fn after_close(body: Seq<char>, end: int) -> int {
    if end < body.len() {
        end + 1
    } else {
        body.len() as int
    }
}

/// The unit of syntax that starts at `pos`, and the position after it.
pub open spec fn lexeme_at(body: Seq<char>, pos: int) -> (Lexeme, int)
    recommends
        0 <= pos < body.len(),
{
    let c = body[pos];
    if c == '+' {
        (Lexeme::Repeat, pos + 1)
    } else if c == '?' {
        (Lexeme::Optional, pos + 1)
    } else if c == '.' {
        (Lexeme::Token(SpecToken::Wildcard), pos + 1)
    } else if c == '\\' {
        if pos + 1 >= body.len() {
            (Lexeme::BadEscape, pos + 1)
        } else if body[pos + 1] == 'd' {
            (Lexeme::Token(SpecToken::Digit), pos + 2)
        } else if body[pos + 1] == 'w' {
            (Lexeme::Token(SpecToken::Word), pos + 2)
        } else if body[pos + 1] == '\\' {
            (Lexeme::Token(SpecToken::Literal('\\')), pos + 2)
        } else {
            (Lexeme::BadEscape, pos + 2)
        }
    } else if c == '[' {
        let negated = pos + 1 < body.len() && body[pos + 1] == '^';
        let start = if negated {
            pos + 2
        } else {
            pos + 1
        };
        let end = start + span_until(body.skip(start), ']');
        let members = body.subrange(start, end);
        let token = if negated {
            SpecToken::NegClass(members)
        } else {
            SpecToken::Class(members)
        };
        (Lexeme::Token(token), after_close(body, end))
    } else if c == '(' {
        let end = pos + 1 + span_until(body.skip(pos + 1), ')');
        let options = split_on(body.subrange(pos + 1, end), '|');
        (Lexeme::Token(SpecToken::Alternation(options)), after_close(body, end))
    } else {
        (Lexeme::Token(SpecToken::Literal(c)), pos + 1)
    }
}

/// The tokens after one more unit of syntax: a token is appended, a
/// quantifier wraps the last token in place.
pub open spec fn apply_lexeme(tokens: Seq<SpecToken>, lexeme: Lexeme) -> Result<
    Seq<SpecToken>,
    CompileError,
> {
    match lexeme {
        Lexeme::Token(token) => Ok(tokens.push(token)),
        Lexeme::Repeat => if tokens.len() == 0 {
            Err(CompileError::DanglingQuantifier)
        } else {
            Ok(tokens.drop_last().push(SpecToken::OneOrMore(Box::new(tokens.last()))))
        },
        Lexeme::Optional => if tokens.len() == 0 {
            Err(CompileError::DanglingQuantifier)
        } else {
            Ok(tokens.drop_last().push(SpecToken::ZeroOrOne(Box::new(tokens.last()))))
        },
        Lexeme::BadEscape => Err(CompileError::InvalidEscape),
    }
}

/// The left-to-right scan of `body` from `pos`, with `tokens` emitted so
/// far. It stops at the first error.
pub open spec fn scan(body: Seq<char>, pos: int, tokens: Seq<SpecToken>) -> Result<
    Seq<SpecToken>,
    CompileError,
>
    decreases body.len() - pos,
{
    if pos < 0 || pos >= body.len() {
        Ok(tokens)
    } else {
        let (lexeme, next) = lexeme_at(body, pos);
        match apply_lexeme(tokens, lexeme) {
            Ok(extended) => scan(body, next, extended),
            Err(e) => Err(e),
        }
    }
}

/// Whether the pattern begins with `^`.
pub open spec fn has_start_anchor(pattern: Seq<char>) -> bool {
    pattern.len() > 0 && pattern[0] == '^'
}

/// The pattern without its leading `^`, if it has one.
pub open spec fn after_start_anchor(pattern: Seq<char>) -> Seq<char> {
    if has_start_anchor(pattern) {
        pattern.drop_first()
    } else {
        pattern
    }
}

/// Whether what is left after the leading `^` ends with `$`.
pub open spec fn has_end_anchor(pattern: Seq<char>) -> bool {
    let rest = after_start_anchor(pattern);
    rest.len() > 0 && rest.last() == '$'
}

/// The pattern between its anchors: the part that is scanned for tokens.
pub open spec fn pattern_body(pattern: Seq<char>) -> Seq<char> {
    let rest = after_start_anchor(pattern);
    if has_end_anchor(pattern) {
        rest.drop_last()
    } else {
        rest
    }
}

/// What a pattern text compiles to.
pub open spec fn compile(pattern: Seq<char>) -> Result<SpecPattern, CompileError> {
    match scan(pattern_body(pattern), 0, Seq::<SpecToken>::empty()) {
        Ok(tokens) => Ok(
            SpecPattern {
                anchor_start: has_start_anchor(pattern),
                anchor_end: has_end_anchor(pattern),
                tokens,
            },
        ),
        Err(e) => Err(e),
    }
}

/// Whether `result` is what compiling `pattern` gives: the compiled pattern
/// by its model, or the error.
pub open spec fn is_compilation_of(
    result: Result<CompiledPattern, CompileError>,
    pattern: Seq<char>,
) -> bool {
    match result {
        Ok(compiled) => compile(pattern) == Ok::<SpecPattern, CompileError>(compiled@),
        Err(e) => compile(pattern) == Err::<SpecPattern, CompileError>(e),
    }
}

/// The pieces joined again, with one `sep` between each two neighbours.
pub open spec fn join_with(pieces: Seq<Seq<char>>, sep: char) -> Seq<char>
    decreases pieces.len(),
{
    if pieces.len() == 0 {
        Seq::<char>::empty()
    } else if pieces.len() == 1 {
        pieces[0]
    } else {
        join_with(pieces.drop_last(), sep).push(sep) + pieces.last()
    }
}

/// Splitting loses nothing and leaves no separator behind: there is at
/// least one piece, no piece holds `sep`, and the pieces joined with `sep`
/// are `s` again.
pub proof fn lemma_split_on(s: Seq<char>, sep: char)
    ensures
        split_on(s, sep).len() >= 1,
        forall|k: int| 0 <= k < split_on(s, sep).len() ==> !(#[trigger] split_on(s, sep)[k]).contains(sep),
        join_with(split_on(s, sep), sep) == s,
    decreases s.len(),
{
    let pieces = split_on(s, sep);
    if s.len() == 0 {
        assert(pieces[0] =~= s);
    } else {
        let before = split_on(s.drop_last(), sep);
        lemma_split_on(s.drop_last(), sep);
        let c = s.last();
        if c == sep {
            assert(pieces.drop_last() =~= before);
            assert(join_with(pieces, sep) =~= s);
        } else {
            let grown = before.last().push(c);
            assert forall|k: int| 0 <= k < pieces.len() implies !(#[trigger] pieces[k]).contains(sep) by {
                if k == pieces.len() - 1 {
                    assert(pieces[k] == grown);
                    if grown.contains(sep) {
                        let i = choose|i: int| 0 <= i < grown.len() && grown[i] == sep;
                        assert(before.last()[i] == sep);
                    }
                } else {
                    assert(pieces[k] == before[k]);
                }
            }
            if before.len() == 1 {
                assert(before.last() == before[0]);
                assert(join_with(pieces, sep) =~= s);
            } else {
                assert(pieces.drop_last() =~= before.drop_last());
                assert(join_with(pieces, sep) =~= join_with(before, sep).push(c));
                assert(join_with(pieces, sep) =~= s);
            }
        }
    }
}

/// `span_until` is the position of the first `stop`: nothing before it is
/// a `stop`, and it is the length of `s` exactly where `s` holds none.
pub proof fn lemma_span_until(s: Seq<char>, stop: char)
    ensures
        span_until(s, stop) <= s.len(),
        forall|i: int| 0 <= i < span_until(s, stop) ==> s[i] != stop,
        span_until(s, stop) < s.len() ==> s[span_until(s, stop) as int] == stop,
    decreases s.len(),
{
    if s.len() == 0 || s[0] == stop {
    } else {
        let rest = s.drop_first();
        lemma_span_until(rest, stop);
        assert forall|i: int| 0 <= i < span_until(s, stop) implies s[i] != stop by {
            if i > 0 {
                assert(s[i] == rest[i - 1]);
            }
        }
        let n = span_until(rest, stop) as int;
        assert(n + 1 < s.len() ==> s[n + 1] == rest[n]);
    }
}

/// A position with no `stop` before it, which holds a `stop` or is the end
/// of `s`, is `span_until`.
pub proof fn lemma_span_until_is(s: Seq<char>, stop: char, n: int)
    requires
        0 <= n <= s.len(),
        forall|i: int| 0 <= i < n ==> s[i] != stop,
        n < s.len() ==> s[n] == stop,
    ensures
        span_until(s, stop) == n,
{
    lemma_span_until(s, stop);
    let m = span_until(s, stop) as int;
    if m < n {
        assert(s[m] == stop);
    } else if n < m {
        assert(s[n] != stop);
    }
}

/// The first position at or after `from` that holds `stop`, or the length of
/// `body` where none does.
fn find_close(body: &[char], from: usize, stop: char) -> (end: usize)
    requires
        from <= body@.len(),
    ensures
        end == from + span_until(body@.skip(from as int), stop),
        from <= end <= body@.len(),
{
    let mut end: usize = from;
    while end < body.len() && char_at(body, end) != stop
        invariant
            from <= end <= body@.len(),
            forall|i: int| from <= i < end ==> body@[i] != stop,
        decreases body@.len() - end,
    {
        end += 1;
    }
    proof {
        lemma_span_until_is(body@.skip(from as int), stop, end - from);
    }
    end
}

/// Splits `content` at every `sep`.
pub fn split_on_char(content: &[char], sep: char) -> (pieces: Vec<Vec<char>>)
    ensures
        view_options(pieces@) == split_on(content@, sep),
{
    let mut pieces: Vec<Vec<char>> = Vec::new();
    let mut current: Vec<char> = Vec::new();
    let mut i: usize = 0;
    while i < content.len()
        invariant
            i <= content@.len(),
            view_options(pieces@).push(current@) == split_on(content@.take(i as int), sep),
        decreases content@.len() - i,
    {
        let c = char_at(content, i);
        proof {
            let upto = content@.take(i + 1);
            assert(upto.drop_last() == content@.take(i as int));
            assert(upto.last() == c);
        }
        let ghost before = view_options(pieces@).push(current@);
        if c == sep {
            pieces.push(current);
            current = Vec::new();
            assert(view_options(pieces@) == before);
        } else {
            current.push(c);
            assert(view_options(pieces@).push(current@) == before.drop_last().push(
                before.last().push(c),
            ));
        }
        i += 1;
    }
    proof {
        assert(content@.take(i as int) == content@);
    }
    let ghost before = view_options(pieces@);
    pieces.push(current);
    assert(view_options(pieces@) == before.push(current@));
    pieces
}

/// Compiles a pattern text: strips the anchors, then scans what is left
/// from left to right into tokens.
///
/// A leading `^` and, independently, a trailing `$` set the anchor flags and
/// are dropped. The scan fails at the first backslash that does not start
/// `\d`, `\w` or `\\`, and at the first `+` or `?` with no token before it.
/// A `[` or `(` that is never closed takes the rest of the pattern as its
/// content.
pub fn tokenize_pattern(pattern: &str) -> (result: Result<CompiledPattern, CompileError>)
    ensures
        is_compilation_of(result, pattern@),
{
    let owned = chars_of(pattern);
    let chars = owned.as_slice();
    let anchor_start = chars.len() > 0 && char_at(chars, 0) == '^';
    let lo: usize = if anchor_start {
        1
    } else {
        0
    };
    let anchor_end = chars.len() > lo && char_at(chars, chars.len() - 1) == '$';
    let hi: usize = if anchor_end {
        chars.len() - 1
    } else {
        chars.len()
    };
    let body = slice_subrange(chars, lo, hi);
    assert(body@ == pattern_body(pattern@));

    let mut tokens: Vec<Token> = Vec::new();
    let mut pos: usize = 0;
    assert(view_tokens(tokens@) == Seq::<SpecToken>::empty());
    while pos < body.len()
        invariant
            pos <= body@.len(),
            body@ == pattern_body(pattern@),
            scan(body@, pos as int, view_tokens(tokens@)) == scan(
                body@,
                0,
                Seq::<SpecToken>::empty(),
            ),
        decreases body@.len() - pos,
    {
        let ghost emitted = tokens@;
        let c = char_at(body, pos);
        if c == '+' {
            match tokens.pop() {
                Some(last) => {
                    let wrapped = Token::OneOrMore(Box::new(last));
                    proof {
                        lemma_view_tokens_drop_last(emitted);
                        lemma_view_tokens_push(emitted.drop_last(), wrapped);
                    }
                    tokens.push(wrapped);
                },
                None => {
                    return Err(CompileError::DanglingQuantifier);
                },
            }
            pos += 1;
        } else if c == '?' {
            match tokens.pop() {
                Some(last) => {
                    let wrapped = Token::ZeroOrOne(Box::new(last));
                    proof {
                        lemma_view_tokens_drop_last(emitted);
                        lemma_view_tokens_push(emitted.drop_last(), wrapped);
                    }
                    tokens.push(wrapped);
                },
                None => {
                    return Err(CompileError::DanglingQuantifier);
                },
            }
            pos += 1;
        } else if c == '.' {
            proof {
                lemma_view_tokens_push(emitted, Token::Wildcard);
            }
            tokens.push(Token::Wildcard);
            pos += 1;
        } else if c == '\\' {
            if pos + 1 >= body.len() {
                return Err(CompileError::InvalidEscape);
            }
            let escaped = char_at(body, pos + 1);
            if escaped == 'd' {
                proof {
                    lemma_view_tokens_push(emitted, Token::Digit);
                }
                tokens.push(Token::Digit);
            } else if escaped == 'w' {
                proof {
                    lemma_view_tokens_push(emitted, Token::Word);
                }
                tokens.push(Token::Word);
            } else if escaped == '\\' {
                proof {
                    lemma_view_tokens_push(emitted, Token::Literal('\\'));
                }
                tokens.push(Token::Literal('\\'));
            } else {
                return Err(CompileError::InvalidEscape);
            }
            pos += 2;
        } else if c == '[' {
            let negated = pos + 1 < body.len() && char_at(body, pos + 1) == '^';
            let start: usize = if negated {
                pos + 2
            } else {
                pos + 1
            };
            let end = find_close(body, start, ']');
            let members = slice_to_vec(slice_subrange(body, start, end));
            if negated {
                proof {
                    lemma_view_tokens_push(emitted, Token::NegClass(members));
                }
                tokens.push(Token::NegClass(members));
            } else {
                proof {
                    lemma_view_tokens_push(emitted, Token::Class(members));
                }
                tokens.push(Token::Class(members));
            }
            pos = if end < body.len() {
                end + 1
            } else {
                end
            };
        } else if c == '(' {
            let end = find_close(body, pos + 1, ')');
            let options = split_on_char(slice_subrange(body, pos + 1, end), '|');
            proof {
                lemma_view_tokens_push(emitted, Token::Alternation(options));
            }
            tokens.push(Token::Alternation(options));
            pos = if end < body.len() {
                end + 1
            } else {
                end
            };
        } else {
            proof {
                lemma_view_tokens_push(emitted, Token::Literal(c));
            }
            tokens.push(Token::Literal(c));
            pos += 1;
        }
    }
    Ok(CompiledPattern { anchor_start, anchor_end, tokens })
}

} // verus!
