//! The executable scanner.
//!
//! [`Lexer`] holds a cursor over borrowed source bytes and yields one
//! token per call of [`Lexer::next_token`].  Its contract ties every
//! call to the specification-level model [`crate::scan::scan_from`]:
//! the token returned and the cursor afterwards are exactly what the
//! model says, so scanning is a pure function of the source text.

use vstd::prelude::*;
use vstd::slice::slice_index_get;
use vstd::slice::slice_subrange;

use crate::scan::COLON;
use crate::scan::CR;
use crate::scan::DOT;
use crate::scan::EQUALS;
use crate::scan::NL;
use crate::scan::QUOTE;
use crate::scan::SPACE;
use crate::scan::TAB;
use crate::scan::alnum_end;
use crate::scan::digits_end;
use crate::scan::is_alpha;
use crate::scan::is_digit;
use crate::scan::is_terminal;
use crate::scan::lemma_alnum_end;
use crate::scan::lemma_line_at_step;
use crate::scan::lemma_nl_count_bound;
use crate::scan::lemma_nl_count_concat;
use crate::scan::lemma_scan_from_ok;
use crate::scan::lemma_string_end;
use crate::scan::lemma_ws_end;
use crate::scan::line_at;
use crate::scan::number_end;
use crate::scan::scan_from;
use crate::scan::scan_state_ok;
use crate::scan::stream_from;
use crate::scan::string_end;
use crate::scan::ws_end;
use crate::token::LexError;
use crate::token::Token;
use crate::token::TokenKind;

verus! {

/// Whether `b` is an ASCII decimal digit.
pub fn byte_is_digit(b: u8) -> (r: bool)
    ensures
        r == is_digit(b),
{
    48 <= b && b <= 57
}

/// Whether `b` is an ASCII alphabetic character.
pub fn byte_is_alpha(b: u8) -> (r: bool)
    ensures
        r == is_alpha(b),
{
    (65 <= b && b <= 90) || (97 <= b && b <= 122)
}

/// The scanner: a cursor over borrowed source bytes.
///
/// The source is never mutated and never copied; `start` marks the
/// first byte of the token being scanned, `current` the next
/// unconsumed byte, and `line` the 1-based line the cursor stands on.
pub struct Lexer<'a> {
    source: &'a [u8],
    start: usize,
    current: usize,
    line: usize,
}

impl<'a> Lexer<'a> {
    /// The source bytes being scanned.
    pub closed spec fn src(self) -> Seq<u8> {
        self.source@
    }

    /// The byte offset of the next unconsumed byte.
    pub closed spec fn pos(self) -> nat {
        self.current as nat
    }

    /// The current 1-based line counter.
    pub closed spec fn line_no(self) -> nat {
        self.line as nat
    }

    /// The cursor invariant: offsets stay inside the source and the
    /// line counter is exactly one more than the number of newlines
    /// already consumed.
    pub closed spec fn wf(self) -> bool {
        &&& self.start <= self.current <= self.src().len()
        &&& self.src().len() < usize::MAX
        &&& self.line as nat == line_at(self.src(), self.current as nat)
    }

    /// Creates a scanner at the start of `source`, on line 1.
    pub fn new(source: &'a [u8]) -> (lexer: Lexer<'a>)
        requires
            source@.len() < usize::MAX,
        ensures
            lexer.wf(),
            lexer.src() == source@,
            lexer.pos() == 0,
            lexer.line_no() == 1,
    {
        Lexer { source, start: 0, current: 0, line: 1 }
    }

    /// The next unconsumed byte, if any, without advancing.
    fn peek(&self) -> (r: Option<u8>)
        requires
            self.current <= self.src().len(),
        ensures
            r matches Some(b) ==> self.current < self.src().len() && b == self.src()[self.current as int],
            r is None ==> self.current == self.src().len(),
    {
        if self.current < self.source.len() {
            Some(*slice_index_get(self.source, self.current))
        } else {
            None
        }
    }

    /// Skips insignificant whitespace, counting every newline passed.
    fn skip_whitespace(&mut self)
        requires
            old(self).wf(),
        ensures
            final(self).wf(),
            final(self).source == old(self).source,
            final(self).start == old(self).start,
            final(self).current as nat == ws_end(old(self).src(), old(self).current as nat),
    {
        loop
            invariant
                self.wf(),
                self.source == old(self).source,
                self.start == old(self).start,
                ws_end(self.src(), self.current as nat) == ws_end(
                    old(self).src(),
                    old(self).current as nat,
                ),
            ensures
                self.wf(),
                self.source == old(self).source,
                self.start == old(self).start,
                self.current as nat == ws_end(old(self).src(), old(self).current as nat),
            decreases self.src().len() - self.current,
        {
            match self.peek() {
                Some(b) => {
                    if b == NL {
                        proof {
                            lemma_nl_count_bound(self.src(), 0, self.current as nat);
                            lemma_line_at_step(self.src(), self.current as nat);
                        }
                        self.line = self.line + 1;
                        self.current = self.current + 1;
                    } else if b == SPACE || b == TAB || b == CR {
                        proof {
                            lemma_line_at_step(self.src(), self.current as nat);
                        }
                        self.current = self.current + 1;
                    } else {
                        break;
                    }
                },
                None => {
                    break;
                },
            }
        }
    }

    /// Builds a token of the given kind over `[start, current)` on the
    /// current line.
    fn token(&self, kind: TokenKind) -> (t: Token)
        ensures
            t == (Token { kind: kind, start: self.start, end: self.current, line: self.line }),
    {
        Token { kind: kind, start: self.start, end: self.current, line: self.line }
    }

    /// Consumes the maximal digit run at the cursor.
    fn scan_digits(&mut self)
        requires
            old(self).wf(),
        ensures
            final(self).wf(),
            final(self).source == old(self).source,
            final(self).start == old(self).start,
            final(self).line == old(self).line,
            final(self).current as nat == digits_end(old(self).src(), old(self).current as nat),
    {
        loop
            invariant
                self.wf(),
                self.source == old(self).source,
                self.start == old(self).start,
                self.line == old(self).line,
                digits_end(self.src(), self.current as nat) == digits_end(
                    old(self).src(),
                    old(self).current as nat,
                ),
            ensures
                self.wf(),
                self.source == old(self).source,
                self.start == old(self).start,
                self.line == old(self).line,
                self.current as nat == digits_end(old(self).src(), old(self).current as nat),
            decreases self.src().len() - self.current,
        {
            match self.peek() {
                Some(b) => {
                    if byte_is_digit(b) {
                        proof {
                            lemma_line_at_step(self.src(), self.current as nat);
                        }
                        self.current = self.current + 1;
                    } else {
                        break;
                    }
                },
                None => {
                    break;
                },
            }
        }
    }

    /// Scans a number literal: a maximal digit run, then, if a `.`
    /// follows, the `.` and a second maximal digit run.  A second `.`
    /// is left for the next token.
    fn scan_number(&mut self) -> (t: Token)
        requires
            old(self).wf(),
        ensures
            final(self).wf(),
            final(self).source == old(self).source,
            final(self).start == old(self).start,
            final(self).line == old(self).line,
            final(self).current as nat == number_end(old(self).src(), old(self).current as nat),
            t == (Token {
                kind: TokenKind::Number,
                start: final(self).start,
                end: final(self).current,
                line: final(self).line,
            }),
    {
        self.scan_digits();
        match self.peek() {
            Some(b) => {
                if b == DOT {
                    proof {
                        lemma_line_at_step(self.src(), self.current as nat);
                    }
                    self.current = self.current + 1;
                    self.scan_digits();
                }
            },
            None => {},
        }
        self.token(TokenKind::Number)
    }

    /// Scans the tail of an identifier: the maximal alphanumeric run
    /// at the cursor.
    fn scan_ident(&mut self) -> (t: Token)
        requires
            old(self).wf(),
        ensures
            final(self).wf(),
            final(self).source == old(self).source,
            final(self).start == old(self).start,
            final(self).line == old(self).line,
            final(self).current as nat == alnum_end(old(self).src(), old(self).current as nat),
            t == (Token {
                kind: TokenKind::Identifier,
                start: final(self).start,
                end: final(self).current,
                line: final(self).line,
            }),
    {
        loop
            invariant
                self.wf(),
                self.source == old(self).source,
                self.start == old(self).start,
                self.line == old(self).line,
                alnum_end(self.src(), self.current as nat) == alnum_end(
                    old(self).src(),
                    old(self).current as nat,
                ),
            ensures
                self.wf(),
                self.source == old(self).source,
                self.start == old(self).start,
                self.line == old(self).line,
                self.current as nat == alnum_end(old(self).src(), old(self).current as nat),
            decreases self.src().len() - self.current,
        {
            match self.peek() {
                Some(b) => {
                    if byte_is_digit(b) || byte_is_alpha(b) {
                        proof {
                            lemma_line_at_step(self.src(), self.current as nat);
                        }
                        self.current = self.current + 1;
                    } else {
                        break;
                    }
                },
                None => {
                    break;
                },
            }
        }
        self.token(TokenKind::Identifier)
    }

    /// Scans a string literal whose opening quote stands at the
    /// cursor.  The produced span excludes both quotes.  Reaching a
    /// raw newline or the end of the source before the closing quote
    /// is the fatal error `UnterminatedString`.
    fn scan_string(&mut self) -> (r: Result<Token, LexError>)
        requires
            old(self).wf(),
            old(self).current < old(self).src().len(),
            old(self).src()[old(self).current as int] == QUOTE,
        ensures
            final(self).wf(),
            final(self).source == old(self).source,
            final(self).line == old(self).line,
            ({
                let e = string_end(old(self).src(), old(self).current as nat + 1);
                if e < old(self).src().len() && old(self).src()[e as int] == QUOTE {
                    &&& r == Ok::<Token, LexError>(
                        Token {
                            kind: TokenKind::Str,
                            start: (old(self).current + 1) as usize,
                            end: e as usize,
                            line: old(self).line,
                        },
                    )
                    &&& final(self).current as nat == e + 1
                } else {
                    &&& r == Err::<Token, LexError>(LexError::UnterminatedString(old(self).line))
                    &&& final(self).current as nat == e
                }
            }),
    {
        proof {
            lemma_line_at_step(self.src(), self.current as nat);
            lemma_string_end(self.src(), self.current as nat + 1);
        }
        // Exclude the opening quote from the span, then step past it.
        self.start = self.current + 1;
        self.current = self.current + 1;
        loop
            invariant
                self.wf(),
                self.source == old(self).source,
                self.start == old(self).current + 1,
                self.line == old(self).line,
                string_end(self.src(), self.current as nat) == string_end(
                    old(self).src(),
                    old(self).current as nat + 1,
                ),
            ensures
                self.wf(),
                self.source == old(self).source,
                self.start == old(self).current + 1,
                self.line == old(self).line,
                self.current as nat == string_end(old(self).src(), old(self).current as nat + 1),
            decreases self.src().len() - self.current,
        {
            match self.peek() {
                Some(b) => {
                    if b != QUOTE && b != NL {
                        proof {
                            lemma_line_at_step(self.src(), self.current as nat);
                        }
                        self.current = self.current + 1;
                    } else {
                        break;
                    }
                },
                None => {
                    break;
                },
            }
        }
        match self.peek() {
            Some(b) => {
                if b == QUOTE {
                    let t = self.token(TokenKind::Str);
                    proof {
                        lemma_line_at_step(self.src(), self.current as nat);
                    }
                    self.current = self.current + 1;
                    Ok(t)
                } else {
                    Err(LexError::UnterminatedString(self.line))
                }
            },
            None => Err(LexError::UnterminatedString(self.line)),
        }
    }

    /// Yields the next token: skips whitespace (newlines advance the
    /// line counter), then classifies the first significant byte.
    ///
    /// The result and the cursor afterwards are exactly those of the
    /// model [`scan_from`] applied to the cursor before the call, so
    /// the whole scan is a pure function of the source text.  Once the
    /// source is exhausted this yields the zero-length `EndOfInput`
    /// token (and keeps yielding it if called again).
    pub fn next_token(&mut self) -> (r: Result<Token, LexError>)
        requires
            old(self).wf(),
        ensures
            final(self).wf(),
            final(self).src() == old(self).src(),
            ({
                let step = scan_from(old(self).src(), old(self).pos(), old(self).line_no());
                &&& r == step.result
                &&& final(self).pos() == step.pos
                &&& final(self).line_no() == step.line
            }),
    {
        proof {
            lemma_ws_end(self.src(), self.current as nat);
        }
        self.skip_whitespace();
        self.start = self.current;
        proof {
            lemma_nl_count_concat(
                self.src(),
                0,
                old(self).current as nat,
                self.current as nat,
            );
        }
        match self.peek() {
            None => Ok(self.token(TokenKind::EndOfInput)),
            Some(b) => {
                if b == EQUALS {
                    proof {
                        lemma_line_at_step(self.src(), self.current as nat);
                    }
                    self.current = self.current + 1;
                    Ok(self.token(TokenKind::Equal))
                } else if b == COLON {
                    proof {
                        lemma_line_at_step(self.src(), self.current as nat);
                    }
                    self.current = self.current + 1;
                    Ok(self.token(TokenKind::Colon))
                } else if byte_is_digit(b) || b == DOT {
                    Ok(self.scan_number())
                } else if byte_is_alpha(b) {
                    proof {
                        lemma_line_at_step(self.src(), self.current as nat);
                        lemma_alnum_end(self.src(), self.current as nat + 1);
                    }
                    self.current = self.current + 1;
                    Ok(self.scan_ident())
                } else if b == QUOTE {
                    self.scan_string()
                } else {
                    proof {
                        lemma_line_at_step(self.src(), self.current as nat);
                    }
                    self.current = self.current + 1;
                    Err(LexError::UnexpectedCharacter(b, self.line))
                }
            },
        }
    }
}

/// The lexeme a token identifies: the source bytes at its span,
/// without copying.
pub fn lexeme<'s>(source: &'s [u8], t: &Token) -> (r: &'s [u8])
    requires
        t.start <= t.end <= source@.len(),
    ensures
        r@ == source@.subrange(t.start as int, t.end as int),
{
    slice_subrange(source, t.start, t.end)
}

/// Scans the whole source from a fresh cursor: the token sequence up
/// to and including the terminal end-of-input token or the first
/// lexical error.  The result is a pure function of the source bytes.
pub fn tokens(source: &[u8]) -> (r: Vec<Result<Token, LexError>>)
    requires
        source@.len() < usize::MAX,
    ensures
        r@ == stream_from(source@, 0, 1),
{
    let mut lexer = Lexer::new(source);
    let mut out: Vec<Result<Token, LexError>> = Vec::new();
    proof {
        lemma_nl_count_bound(source@, 0, 0);
    }
    loop
        invariant_except_break
            stream_from(source@, 0, 1) == out@ + stream_from(source@, lexer.pos(), lexer.line_no()),
        invariant
            lexer.wf(),
            lexer.src() == source@,
            scan_state_ok(source@, lexer.pos(), lexer.line_no()),
        ensures
            out@ == stream_from(source@, 0, 1),
        decreases source@.len() - lexer.pos(),
    {
        let ghost pre_pos = lexer.pos();
        let ghost pre_line = lexer.line_no();
        proof {
            lemma_scan_from_ok(source@, pre_pos, pre_line);
        }
        let t = lexer.next_token();
        out.push(t);
        let stop = match &t {
            Ok(tok) => tok.kind == TokenKind::EndOfInput,
            Err(_) => true,
        };
        proof {
            assert(stream_from(source@, pre_pos, pre_line) == seq![t].add(
                if is_terminal(t) {
                    Seq::<Result<Token, LexError>>::empty()
                } else {
                    stream_from(source@, lexer.pos(), lexer.line_no())
                },
            ));
        }
        if stop {
            break;
        }
    }
    out
}

} // verus!
