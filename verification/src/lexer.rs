//! The tokenizer: one left-to-right pass over the source characters,
//! tracking 1-based line and column, producing positioned tokens in source
//! order. `spec_lex` is the mathematical definition; `Lexer::lex` is the
//! executable lexer, proved to return exactly what `spec_lex` says.

use vstd::prelude::*;

use crate::models::{Error, ErrorType, Lexer, Position, SpecError, SpecErrorKind, SpecPos,
    SpecToken, SpecTokenKind, Token, TokenType};
use crate::scan::{alnum_run_end, alnum_run_end_exec, char_at, char_len, digit_run_end,
    digit_run_end_exec, is_alnum, is_alnum_char, lemma_alnum_run_end, lemma_digit_run_end,
    push_char, run_value, run_value_exec};

verus! {

/// Result of scanning a string literal's interior: the collected content,
/// the index of the closing quote, and the quote's line and column.
pub ghost struct SpecStrScan {
    pub content: Seq<char>,
    pub end: int,
    pub line: int,
    pub col: int,
}

/// Scans the interior of a string literal whose next character `s[i]`
/// stands at `line`/`col`; `None` where the input ends first.
pub open spec fn scan_str(s: Seq<char>, i: int, line: int, col: int) -> Option<SpecStrScan>
    recommends
        0 <= i,
    decreases s.len() - i,
{
    if i >= s.len() {
        None
    } else if s[i] == '"' {
        Some(SpecStrScan { content: Seq::empty(), end: i, line, col })
    } else {
        let line2 = if s[i] == '\n' { line + 1 } else { line };
        let col2 = if s[i] == '\n' { 1 } else { col + 1 };
        match scan_str(s, i + 1, line2, col2) {
            None => None,
            Some(sc) => Some(SpecStrScan {
                content: seq![s[i]] + sc.content,
                end: sc.end,
                line: sc.line,
                col: sc.col,
            }),
        }
    }
}

/// Where a literal's interior scan succeeds, the closing quote stands at
/// or after `i`, within the input.
pub proof fn lemma_scan_str(s: Seq<char>, i: int, line: int, col: int)
    requires
        0 <= i,
        scan_str(s, i, line, col) is Some,
    ensures
        i <= scan_str(s, i, line, col)->Some_0.end < s.len(),
    decreases s.len() - i,
{
    if i < s.len() && s[i] != '"' {
        let line2 = if s[i] == '\n' { line + 1 } else { line };
        let col2 = if s[i] == '\n' { 1 } else { col + 1 };
        lemma_scan_str(s, i + 1, line2, col2);
    }
}

/// Prepends one token to a lexing result that succeeded.
pub open spec fn lex_cons(t: SpecToken, r: Result<Seq<SpecToken>, SpecError>) -> Result<
    Seq<SpecToken>,
    SpecError,
> {
    match r {
        Ok(rest) => Ok(seq![t] + rest),
        Err(e) => Err(e),
    }
}

/// Prepends an already-lexed token sequence to a lexing result.
pub open spec fn lex_combine(ts: Seq<SpecToken>, r: Result<Seq<SpecToken>, SpecError>) -> Result<
    Seq<SpecToken>,
    SpecError,
> {
    match r {
        Ok(rest) => Ok(ts + rest),
        Err(e) => Err(e),
    }
}

/// The tokens of `s` from position `i` on, where `s[i]` stands at
/// `line`/`col` — or the first error, with the position it arose at.
pub open spec fn spec_lex_from(s: Seq<char>, i: int, line: int, col: int) -> Result<
    Seq<SpecToken>,
    SpecError,
>
    recommends
        0 <= i,
    decreases s.len() - i,
    when 0 <= i
    via spec_lex_from_dec
{
    if i >= s.len() {
        Ok(Seq::empty())
    } else {
        let c = s[i];
        if c == '?' {
            let j = digit_run_end(s, i + 1);
            if j == i + 1 {
                Err(SpecError {
                    kind: SpecErrorKind::Missing("digits after '?', for an identifier number"@),
                    line,
                    col,
                })
            } else if run_value(s, i + 1, j) > usize::MAX as int {
                Err(SpecError { kind: SpecErrorKind::InvalidSyntax, line, col })
            } else {
                lex_cons(
                    SpecToken {
                        pos: SpecPos { line, col },
                        kind: SpecTokenKind::IdentifierNumber(run_value(s, i + 1, j) as nat),
                    },
                    spec_lex_from(s, j, line, col + (j - i)),
                )
            }
        } else if c == '-' {
            lex_cons(
                SpecToken { pos: SpecPos { line, col }, kind: SpecTokenKind::TellOp },
                spec_lex_from(s, i + 1, line, col + 1),
            )
        } else if c == '(' {
            lex_cons(
                SpecToken { pos: SpecPos { line, col }, kind: SpecTokenKind::ParOpen },
                spec_lex_from(s, i + 1, line, col + 1),
            )
        } else if c == ')' {
            lex_cons(
                SpecToken { pos: SpecPos { line, col }, kind: SpecTokenKind::ParClose },
                spec_lex_from(s, i + 1, line, col + 1),
            )
        } else if c == '#' {
            lex_cons(
                SpecToken { pos: SpecPos { line, col }, kind: SpecTokenKind::BranchOp },
                spec_lex_from(s, i + 1, line, col + 1),
            )
        } else if c == '{' {
            lex_cons(
                SpecToken { pos: SpecPos { line, col }, kind: SpecTokenKind::BrackOpen },
                spec_lex_from(s, i + 1, line, col + 1),
            )
        } else if c == '}' {
            lex_cons(
                SpecToken { pos: SpecPos { line, col }, kind: SpecTokenKind::BrackClose },
                spec_lex_from(s, i + 1, line, col + 1),
            )
        } else if c == '=' {
            if i + 1 >= s.len() {
                Err(SpecError {
                    kind: SpecErrorKind::Missing("'>' after '=', for '=>' operator"@),
                    line,
                    col,
                })
            } else if s[i + 1] != '>' {
                Err(SpecError {
                    kind: SpecErrorKind::Expected("'>' after '=', for '=>' operator"@),
                    line,
                    col: col + 1,
                })
            } else {
                lex_cons(
                    SpecToken { pos: SpecPos { line, col }, kind: SpecTokenKind::LambdaOp },
                    spec_lex_from(s, i + 2, line, col + 2),
                )
            }
        } else if c == ':' {
            if i + 1 >= s.len() {
                Err(SpecError {
                    kind: SpecErrorKind::Missing("'=' after ':', for AssignmentOp (':=')"@),
                    line,
                    col,
                })
            } else if s[i + 1] != '=' {
                Err(SpecError {
                    kind: SpecErrorKind::Expected("'=' after ':', for AssignmentOp (':=')"@),
                    line,
                    col: col + 1,
                })
            } else {
                lex_cons(
                    SpecToken { pos: SpecPos { line, col }, kind: SpecTokenKind::AssignmentOp },
                    spec_lex_from(s, i + 2, line, col + 2),
                )
            }
        } else if is_alnum(c) {
            let j = alnum_run_end(s, i);
            lex_cons(
                SpecToken {
                    pos: SpecPos { line, col },
                    kind: SpecTokenKind::Identifier(s.subrange(i, j)),
                },
                spec_lex_from(s, j, line, col + (j - i)),
            )
        } else if c == '"' {
            if i + 1 >= s.len() {
                Err(SpecError {
                    kind: SpecErrorKind::Missing("end of '\"' (String literal)"@),
                    line,
                    col,
                })
            } else {
                match scan_str(s, i + 1, line, col + 1) {
                    None => Err(SpecError {
                        kind: SpecErrorKind::Missing("This '\"' (String literal) have no ending"@),
                        line,
                        col,
                    }),
                    Some(sc) => lex_cons(
                        SpecToken {
                            pos: SpecPos { line, col },
                            kind: SpecTokenKind::StringLiteral(sc.content),
                        },
                        spec_lex_from(s, sc.end + 1, sc.line, sc.col + 1),
                    ),
                }
            }
        } else if c == '\n' {
            spec_lex_from(s, i + 1, line + 1, 1)
        } else if c == ' ' || c == '\t' {
            spec_lex_from(s, i + 1, line, col + 1)
        } else {
            Err(SpecError { kind: SpecErrorKind::InvalidSyntax, line, col })
        }
    }
}

#[via_fn]
proof fn spec_lex_from_dec(s: Seq<char>, i: int, line: int, col: int) {
    if 0 <= i < s.len() {
        if s[i] == '?' {
            lemma_digit_run_end(s, i + 1);
        } else if is_alnum(s[i]) {
            assert(alnum_run_end(s, i) == alnum_run_end(s, i + 1));
            lemma_alnum_run_end(s, i + 1);
        } else if s[i] == '"' && i + 1 < s.len() {
            if scan_str(s, i + 1, line, col + 1) is Some {
                lemma_scan_str(s, i + 1, line, col + 1);
            }
        }
    }
}

/// The tokens of a whole source text, or the first error.
pub open spec fn spec_lex(s: Seq<char>) -> Result<Seq<SpecToken>, SpecError> {
    spec_lex_from(s, 0, 1, 1)
}

/// The model of a token sequence, element by element.
pub open spec fn spec_tokens(s: Seq<Token>) -> Seq<SpecToken>
    decreases s,
{
    if s.len() == 0 {
        Seq::empty()
    } else {
        spec_tokens(s.drop_last()).push(s.last()@)
    }
}

/// `spec_tokens` maps the view over the elements, index by index.
pub proof fn lemma_spec_tokens(s: Seq<Token>)
    ensures
        spec_tokens(s).len() == s.len(),
        forall|i: int| 0 <= i < s.len() ==> spec_tokens(s)[i] == #[trigger] s[i]@,
    decreases s.len(),
{
    if s.len() > 0 {
        lemma_spec_tokens(s.drop_last());
        assert(spec_tokens(s) == spec_tokens(s.drop_last()).push(s.last()@));
        assert forall|i: int| 0 <= i < s.len() implies spec_tokens(s)[i] == #[trigger] s[i]@ by {
            if i < s.len() - 1 {
                assert(s.drop_last()[i] == s[i]);
            }
        }
    } else {
        assert(spec_tokens(s).len() == 0);
    }
}

/// Appending a token on the executable side matches `push` on the model.
proof fn lemma_spec_tokens_push(s: Seq<Token>, t: Token)
    ensures
        spec_tokens(s.push(t)) == spec_tokens(s).push(t@),
{
    assert(s.push(t).drop_last() =~= s);
    assert(s.push(t).last() == t);
}

/// Moving a token from the pending result into the finished prefix.
proof fn lemma_combine_cons(ts: Seq<SpecToken>, t: SpecToken, r: Result<Seq<SpecToken>, SpecError>)
    ensures
        lex_combine(ts.push(t), r) == lex_combine(ts, lex_cons(t, r)),
{
    match r {
        Ok(rest) => {
            assert(ts.push(t) + rest =~= ts + (seq![t] + rest));
        },
        Err(_) => {},
    }
}

impl Lexer {
    /// The lexer's cursor is within its source, and its 1-based line and
    /// column never run ahead of the characters consumed.
    pub open spec fn wf(&self) -> bool {
        &&& self.index <= self.source@.len()
        &&& self.source@.len() <= usize::MAX - 2
        &&& 1 <= self.line <= self.index + 1
        &&& 1 <= self.column <= self.index + 1
    }

    /// Converts source text into its token sequence, or reports the first
    /// lexical error with the position it arose at. Returns exactly what
    /// `spec_lex` ascribes to the text.
    #[verifier::loop_isolation(false)]
    pub fn lex(source: String) -> (r: Result<Vec<Token>, Error>)
        requires
            source@.len() <= usize::MAX - 2,
        ensures
            match r {
                Ok(tokens) => spec_lex(source@) == Ok::<Seq<SpecToken>, SpecError>(
                    spec_tokens(tokens@)),
                Err(e) => spec_lex(source@) == Err::<Seq<SpecToken>, SpecError>(e@),
            },
    {
        let ghost s = source@;
        let mut tokens: Vec<Token> = Vec::new();
        let mut lexer = Lexer { source, index: 0, line: 1, column: 1 };
        let len = char_len(&lexer.source);

        loop
            invariant
                lexer.source@ == s,
                len == s.len(),
                lexer.wf(),
                spec_lex(s) == lex_combine(
                    spec_tokens(tokens@),
                    spec_lex_from(s, lexer.index as int, lexer.line as int, lexer.column as int),
                ),
            decreases len - lexer.index,
        {
            if lexer.index >= len {
                proof {
                    assert(spec_lex_from(s, lexer.index as int, lexer.line as int,
                        lexer.column as int) == Ok::<Seq<SpecToken>, SpecError>(Seq::empty()));
                    assert(spec_tokens(tokens@) + Seq::empty() =~= spec_tokens(tokens@));
                }
                return Ok(tokens);
            }
            let ghost i = lexer.index as int;
            let ghost line = lexer.line as int;
            let ghost col = lexer.column as int;
            let ghost toks_before = tokens@;
            let c = char_at(&lexer.source, lexer.index);
            let position = Position { line: lexer.line, column: lexer.column };

            if c == '?' {
                match lexer.lex_identifier_number() {
                    Ok(t) => {
                        proof {
                            lemma_digit_run_end(s, i + 1);
                            lemma_spec_tokens_push(toks_before, t);
                            lemma_combine_cons(spec_tokens(toks_before), t@,
                                spec_lex_from(s, lexer.index as int, lexer.line as int,
                                    lexer.column as int));
                        }
                        tokens.push(t);
                    },
                    Err(e) => {
                        return Err(e);
                    },
                }
            } else if c == '-' {
                let t = Token { position, token_type: TokenType::TellOp };
                lexer.index = lexer.index + 1;
                lexer.column = lexer.column + 1;
                proof {
                    lemma_spec_tokens_push(toks_before, t);
                    lemma_combine_cons(spec_tokens(toks_before), t@,
                        spec_lex_from(s, i + 1, line, col + 1));
                }
                tokens.push(t);
            } else if c == '(' {
                let t = Token { position, token_type: TokenType::ParOpen };
                lexer.index = lexer.index + 1;
                lexer.column = lexer.column + 1;
                proof {
                    lemma_spec_tokens_push(toks_before, t);
                    lemma_combine_cons(spec_tokens(toks_before), t@,
                        spec_lex_from(s, i + 1, line, col + 1));
                }
                tokens.push(t);
            } else if c == ')' {
                let t = Token { position, token_type: TokenType::ParClose };
                lexer.index = lexer.index + 1;
                lexer.column = lexer.column + 1;
                proof {
                    lemma_spec_tokens_push(toks_before, t);
                    lemma_combine_cons(spec_tokens(toks_before), t@,
                        spec_lex_from(s, i + 1, line, col + 1));
                }
                tokens.push(t);
            } else if c == '#' {
                let t = Token { position, token_type: TokenType::BranchOp };
                lexer.index = lexer.index + 1;
                lexer.column = lexer.column + 1;
                proof {
                    lemma_spec_tokens_push(toks_before, t);
                    lemma_combine_cons(spec_tokens(toks_before), t@,
                        spec_lex_from(s, i + 1, line, col + 1));
                }
                tokens.push(t);
            } else if c == '{' {
                let t = Token { position, token_type: TokenType::BrackOpen };
                lexer.index = lexer.index + 1;
                lexer.column = lexer.column + 1;
                proof {
                    lemma_spec_tokens_push(toks_before, t);
                    lemma_combine_cons(spec_tokens(toks_before), t@,
                        spec_lex_from(s, i + 1, line, col + 1));
                }
                tokens.push(t);
            } else if c == '}' {
                let t = Token { position, token_type: TokenType::BrackClose };
                lexer.index = lexer.index + 1;
                lexer.column = lexer.column + 1;
                proof {
                    lemma_spec_tokens_push(toks_before, t);
                    lemma_combine_cons(spec_tokens(toks_before), t@,
                        spec_lex_from(s, i + 1, line, col + 1));
                }
                tokens.push(t);
            } else if c == '=' {
                match lexer.lex_lambda_op() {
                    Ok(t) => {
                        proof {
                            lemma_spec_tokens_push(toks_before, t);
                            lemma_combine_cons(spec_tokens(toks_before), t@,
                                spec_lex_from(s, i + 2, line, col + 2));
                        }
                        tokens.push(t);
                    },
                    Err(e) => {
                        return Err(e);
                    },
                }
            } else if c == ':' {
                match lexer.lex_assignment_op() {
                    Ok(t) => {
                        proof {
                            lemma_spec_tokens_push(toks_before, t);
                            lemma_combine_cons(spec_tokens(toks_before), t@,
                                spec_lex_from(s, i + 2, line, col + 2));
                        }
                        tokens.push(t);
                    },
                    Err(e) => {
                        return Err(e);
                    },
                }
            } else if is_alnum_char(c) {
                let t = lexer.lex_identifier();
                proof {
                    assert(alnum_run_end(s, i) == alnum_run_end(s, i + 1));
                    lemma_alnum_run_end(s, i + 1);
                    lemma_spec_tokens_push(toks_before, t);
                    lemma_combine_cons(spec_tokens(toks_before), t@,
                        spec_lex_from(s, lexer.index as int, lexer.line as int,
                            lexer.column as int));
                }
                tokens.push(t);
            } else if c == '"' {
                match lexer.lex_string_literal() {
                    Ok(t) => {
                        proof {
                            lemma_scan_str(s, i + 1, line, col + 1);
                            lemma_spec_tokens_push(toks_before, t);
                            lemma_combine_cons(spec_tokens(toks_before), t@,
                                spec_lex_from(s, lexer.index as int, lexer.line as int,
                                    lexer.column as int));
                        }
                        tokens.push(t);
                    },
                    Err(e) => {
                        return Err(e);
                    },
                }
            } else if c == '\n' {
                lexer.index = lexer.index + 1;
                lexer.line = lexer.line + 1;
                lexer.column = 1;
            } else if c == ' ' || c == '\t' {
                lexer.index = lexer.index + 1;
                lexer.column = lexer.column + 1;
            } else {
                let e = Error::lex_error(ErrorType::InvalidSyntax, &lexer);
                return Err(e);
            }
        }
    }

    /// Lexes `?` followed by a maximal digit run into an identifier-number
    /// token; an empty run, or a value past the machine's slot-id range,
    /// is an error at the `?`.
    fn lex_identifier_number(&mut self) -> (r: Result<Token, Error>)
        requires
            old(self).wf(),
            old(self).index < old(self).source@.len(),
            old(self).source@[old(self).index as int] == '?',
        ensures
            final(self).source == old(self).source,
            ({
                let s = old(self).source@;
                let i = old(self).index as int;
                let line = old(self).line as int;
                let col = old(self).column as int;
                let j = digit_run_end(s, i + 1);
                if j == i + 1 {
                    r matches Err(e) && e@ == (SpecError {
                        kind: SpecErrorKind::Missing(
                            "digits after '?', for an identifier number"@),
                        line,
                        col,
                    })
                } else if run_value(s, i + 1, j) > usize::MAX as int {
                    r matches Err(e) && e@ == (SpecError {
                        kind: SpecErrorKind::InvalidSyntax,
                        line,
                        col,
                    })
                } else {
                    &&& r matches Ok(t)
                    &&& t@ == (SpecToken {
                        pos: SpecPos { line, col },
                        kind: SpecTokenKind::IdentifierNumber(run_value(s, i + 1, j) as nat),
                    })
                    &&& final(self).wf()
                    &&& final(self).index == j
                    &&& final(self).line == old(self).line
                    &&& final(self).column as int == col + (j - i)
                }
            }),
    {
        let ghost s = self.source@;
        let ghost i = self.index as int;
        let position = Position { line: self.line, column: self.column };
        let j = digit_run_end_exec(&self.source, self.index + 1);
        proof {
            lemma_digit_run_end(s, i + 1);
        }
        if j == self.index + 1 {
            let msg = String::from_str("digits after '?', for an identifier number");
            return Err(Error::lex_error(ErrorType::Missing(msg), self));
        }
        match run_value_exec(&self.source, self.index + 1, j) {
            None => Err(Error::lex_error(ErrorType::InvalidSyntax, self)),
            Some(v) => {
                let t = Token { position, token_type: TokenType::IdentifierNumber(v) };
                self.column = self.column + (j - self.index);
                self.index = j;
                Ok(t)
            },
        }
    }

    /// Lexes the two-character operator `=>`; the input ending after `=`
    /// is `Missing`, any other following character is `Expected`.
    fn lex_lambda_op(&mut self) -> (r: Result<Token, Error>)
        requires
            old(self).wf(),
            old(self).index < old(self).source@.len(),
            old(self).source@[old(self).index as int] == '=',
        ensures
            final(self).source == old(self).source,
            ({
                let s = old(self).source@;
                let i = old(self).index as int;
                let line = old(self).line as int;
                let col = old(self).column as int;
                if i + 1 >= s.len() {
                    r matches Err(e) && e@ == (SpecError {
                        kind: SpecErrorKind::Missing("'>' after '=', for '=>' operator"@),
                        line,
                        col,
                    })
                } else if s[i + 1] != '>' {
                    r matches Err(e) && e@ == (SpecError {
                        kind: SpecErrorKind::Expected("'>' after '=', for '=>' operator"@),
                        line,
                        col: col + 1,
                    })
                } else {
                    &&& r matches Ok(t)
                    &&& t@ == (SpecToken {
                        pos: SpecPos { line, col },
                        kind: SpecTokenKind::LambdaOp,
                    })
                    &&& final(self).wf()
                    &&& final(self).index == i + 2
                    &&& final(self).line == old(self).line
                    &&& final(self).column as int == col + 2
                }
            }),
    {
        let len = char_len(&self.source);
        if self.index + 1 >= len {
            let msg = String::from_str("'>' after '=', for '=>' operator");
            return Err(Error::lex_error(ErrorType::Missing(msg), self));
        }
        let c2 = char_at(&self.source, self.index + 1);
        if c2 != '>' {
            self.column = self.column + 1;
            let msg = String::from_str("'>' after '=', for '=>' operator");
            return Err(Error::lex_error(ErrorType::Expected(msg), self));
        }
        let t = Token {
            position: Position { line: self.line, column: self.column },
            token_type: TokenType::LambdaOp,
        };
        self.index = self.index + 2;
        self.column = self.column + 2;
        Ok(t)
    }

    /// Lexes the two-character operator `:=`; the input ending after `:`
    /// is `Missing`, any other following character is `Expected`.
    fn lex_assignment_op(&mut self) -> (r: Result<Token, Error>)
        requires
            old(self).wf(),
            old(self).index < old(self).source@.len(),
            old(self).source@[old(self).index as int] == ':',
        ensures
            final(self).source == old(self).source,
            ({
                let s = old(self).source@;
                let i = old(self).index as int;
                let line = old(self).line as int;
                let col = old(self).column as int;
                if i + 1 >= s.len() {
                    r matches Err(e) && e@ == (SpecError {
                        kind: SpecErrorKind::Missing("'=' after ':', for AssignmentOp (':=')"@),
                        line,
                        col,
                    })
                } else if s[i + 1] != '=' {
                    r matches Err(e) && e@ == (SpecError {
                        kind: SpecErrorKind::Expected("'=' after ':', for AssignmentOp (':=')"@),
                        line,
                        col: col + 1,
                    })
                } else {
                    &&& r matches Ok(t)
                    &&& t@ == (SpecToken {
                        pos: SpecPos { line, col },
                        kind: SpecTokenKind::AssignmentOp,
                    })
                    &&& final(self).wf()
                    &&& final(self).index == i + 2
                    &&& final(self).line == old(self).line
                    &&& final(self).column as int == col + 2
                }
            }),
    {
        let len = char_len(&self.source);
        if self.index + 1 >= len {
            let msg = String::from_str("'=' after ':', for AssignmentOp (':=')");
            return Err(Error::lex_error(ErrorType::Missing(msg), self));
        }
        let c2 = char_at(&self.source, self.index + 1);
        if c2 != '=' {
            self.column = self.column + 1;
            let msg = String::from_str("'=' after ':', for AssignmentOp (':=')");
            return Err(Error::lex_error(ErrorType::Expected(msg), self));
        }
        let t = Token {
            position: Position { line: self.line, column: self.column },
            token_type: TokenType::AssignmentOp,
        };
        self.index = self.index + 2;
        self.column = self.column + 2;
        Ok(t)
    }

    /// Lexes a maximal alphanumeric run into a bare identifier token.
    #[verifier::loop_isolation(false)]
    fn lex_identifier(&mut self) -> (t: Token)
        requires
            old(self).wf(),
            old(self).index < old(self).source@.len(),
            is_alnum(old(self).source@[old(self).index as int]),
        ensures
            final(self).source == old(self).source,
            ({
                let s = old(self).source@;
                let i = old(self).index as int;
                let line = old(self).line as int;
                let col = old(self).column as int;
                let j = alnum_run_end(s, i);
                &&& t@ == (SpecToken {
                    pos: SpecPos { line, col },
                    kind: SpecTokenKind::Identifier(s.subrange(i, j)),
                })
                &&& final(self).wf()
                &&& final(self).index == j
                &&& final(self).line == old(self).line
                &&& final(self).column as int == col + (j - i)
            }),
    {
        let ghost s = self.source@;
        let ghost i = self.index as int;
        let position = Position { line: self.line, column: self.column };
        let j = alnum_run_end_exec(&self.source, self.index);
        proof {
            lemma_alnum_run_end(s, i);
        }
        let mut content = String::new();
        let mut k = self.index;
        while k < j
            invariant
                self.source@ == s,
                i <= k <= j,
                j == alnum_run_end(s, i),
                j <= s.len(),
                content@ == s.subrange(i, k as int),
            decreases j - k,
        {
            let c = char_at(&self.source, k);
            push_char(&mut content, c);
            proof {
                assert(s.subrange(i, k as int).push(s[k as int]) =~= s.subrange(i, k + 1));
            }
            k = k + 1;
        }
        let t = Token { position, token_type: TokenType::Identifier(content) };
        self.column = self.column + (j - self.index);
        self.index = j;
        t
    }

    /// Lexes a string literal: all characters up to the next `"`, with
    /// embedded newlines tracked for position bookkeeping. An unterminated
    /// literal is `Missing`, reported at the opening quote.
    #[verifier::loop_isolation(false)]
    fn lex_string_literal(&mut self) -> (r: Result<Token, Error>)
        requires
            old(self).wf(),
            old(self).index < old(self).source@.len(),
            old(self).source@[old(self).index as int] == '"',
        ensures
            final(self).source == old(self).source,
            ({
                let s = old(self).source@;
                let i = old(self).index as int;
                let line = old(self).line as int;
                let col = old(self).column as int;
                if i + 1 >= s.len() {
                    r matches Err(e) && e@ == (SpecError {
                        kind: SpecErrorKind::Missing("end of '\"' (String literal)"@),
                        line,
                        col,
                    })
                } else {
                    match scan_str(s, i + 1, line, col + 1) {
                        None => r matches Err(e) && e@ == (SpecError {
                            kind: SpecErrorKind::Missing(
                                "This '\"' (String literal) have no ending"@),
                            line,
                            col,
                        }),
                        Some(sc) => {
                            &&& r matches Ok(t)
                            &&& t@ == (SpecToken {
                                pos: SpecPos { line, col },
                                kind: SpecTokenKind::StringLiteral(sc.content),
                            })
                            &&& final(self).wf()
                            &&& final(self).index == sc.end + 1
                            &&& final(self).line == sc.line
                            &&& final(self).column as int == sc.col + 1
                        },
                    }
                }
            }),
    {
        let ghost s = self.source@;
        let ghost i = self.index as int;
        let ghost line0 = self.line as int;
        let ghost col0 = self.column as int;
        let len = char_len(&self.source);
        let start_line = self.line;
        let start_column = self.column;

        if self.index + 1 >= len {
            let msg = String::from_str("end of '\"' (String literal)");
            return Err(Error::lex_error(ErrorType::Missing(msg), self));
        }
        self.index = self.index + 1;
        self.column = self.column + 1;
        let mut content = String::new();

        loop
            invariant
                self.source == old(self).source,
                self.source@ == s,
                len == s.len(),
                s.len() <= usize::MAX - 2,
                i + 1 <= self.index <= len,
                1 <= self.line <= self.index,
                1 <= self.column <= self.index + 1,
                scan_str(s, i + 1, line0, col0 + 1) == scan_prepend(
                    content@,
                    scan_str(s, self.index as int, self.line as int, self.column as int),
                ),
            decreases len - self.index,
        {
            if self.index >= len {
                self.line = start_line;
                self.column = start_column;
                let msg = String::from_str("This '\"' (String literal) have no ending");
                return Err(Error::lex_error(ErrorType::Missing(msg), self));
            }
            let c = char_at(&self.source, self.index);
            if c == '"' {
                let t = Token {
                    position: Position { line: start_line, column: start_column },
                    token_type: TokenType::StringLiteral(content),
                };
                proof {
                    assert(content@ + Seq::<char>::empty() =~= content@);
                }
                self.index = self.index + 1;
                self.column = self.column + 1;
                return Ok(t);
            }
            let ghost content_before = content@;
            push_char(&mut content, c);
            proof {
                let rest = scan_str(s, self.index + 1,
                    if c == '\n' { self.line + 1 } else { self.line as int },
                    if c == '\n' { 1int } else { self.column + 1 });
                match rest {
                    None => {},
                    Some(sc) => {
                        assert(content_before + (seq![c] + sc.content) =~= content_before.push(c)
                            + sc.content);
                    },
                }
            }
            if c == '\n' {
                self.line = self.line + 1;
                self.column = 1;
            } else {
                self.column = self.column + 1;
            }
            self.index = self.index + 1;
        }
    }
}

/// Prepends already-collected literal content to an interior scan result.
pub open spec fn scan_prepend(acc: Seq<char>, r: Option<SpecStrScan>) -> Option<SpecStrScan> {
    match r {
        None => None,
        Some(sc) => Some(SpecStrScan {
            content: acc + sc.content,
            end: sc.end,
            line: sc.line,
            col: sc.col,
        }),
    }
}

} // verus!
