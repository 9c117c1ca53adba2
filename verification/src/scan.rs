//! The mathematical model of scanning.
//!
//! Everything here is specification-level: given the source bytes, a byte
//! offset and a line counter, `scan_from` says exactly which token (or
//! lexical error) the scanner produces next and where the cursor lands,
//! and `stream_from` iterates it to the full token sequence.  The
//! executable [`crate::lexer::Lexer`] is proved to follow this model.

use vstd::prelude::*;

use crate::token::LexError;
use crate::token::Token;
use crate::token::TokenKind;

verus! {

/// The space character.
pub const SPACE: u8 = 32;

/// The horizontal tab character.
pub const TAB: u8 = 9;

/// The carriage-return character.
pub const CR: u8 = 13;

/// The newline character; the only byte that advances the line counter.
pub const NL: u8 = 10;

/// The double quote, which opens and closes string literals.
pub const QUOTE: u8 = 34;

/// The `=` character.
pub const EQUALS: u8 = 61;

/// The `:` character.
pub const COLON: u8 = 58;

/// The `.` character, the decimal point of number literals.
pub const DOT: u8 = 46;

/// Whitespace the scanner skips between tokens: space, tab, carriage
/// return, and newline.
pub open spec fn is_whitespace(b: u8) -> bool {
    b == SPACE || b == TAB || b == CR || b == NL
}

/// An ASCII decimal digit.
pub open spec fn is_digit(b: u8) -> bool {
    48 <= b && b <= 57
}

/// An ASCII alphabetic character.
pub open spec fn is_alpha(b: u8) -> bool {
    (65 <= b && b <= 90) || (97 <= b && b <= 122)
}

/// An ASCII alphanumeric character: what may continue an identifier.
pub open spec fn is_alnum(b: u8) -> bool {
    is_alpha(b) || is_digit(b)
}

/// A byte that may stand inside a string literal: anything but the
/// closing quote and the raw newline.
pub open spec fn is_string_byte(b: u8) -> bool {
    b != QUOTE && b != NL
}

/// The first offset at or after `i` holding a non-whitespace byte
/// (or the end of the source).
pub open spec fn ws_end(s: Seq<u8>, i: nat) -> nat
    decreases s.len() - i,
{
    if i < s.len() && is_whitespace(s[i as int]) {
        ws_end(s, i + 1)
    } else {
        i
    }
}

/// The first offset at or after `i` holding a non-digit byte.
pub open spec fn digits_end(s: Seq<u8>, i: nat) -> nat
    decreases s.len() - i,
{
    if i < s.len() && is_digit(s[i as int]) {
        digits_end(s, i + 1)
    } else {
        i
    }
}

/// The first offset at or after `i` holding a non-alphanumeric byte.
pub open spec fn alnum_end(s: Seq<u8>, i: nat) -> nat
    decreases s.len() - i,
{
    if i < s.len() && is_alnum(s[i as int]) {
        alnum_end(s, i + 1)
    } else {
        i
    }
}

/// The first offset at or after `i` holding a byte that ends a string
/// scan: a quote, a raw newline, or the end of the source.
pub open spec fn string_end(s: Seq<u8>, i: nat) -> nat
    decreases s.len() - i,
{
    if i < s.len() && is_string_byte(s[i as int]) {
        string_end(s, i + 1)
    } else {
        i
    }
}

/// The number of newline bytes in `s` at offsets in `[i, j)`.
pub open spec fn nl_count(s: Seq<u8>, i: nat, j: nat) -> nat
    decreases j - i,
{
    if i < j && i < s.len() {
        (if s[i as int] == NL {
            1nat
        } else {
            0nat
        }) + nl_count(s, i + 1, j)
    } else {
        0
    }
}

/// The 1-based line number at byte offset `j`: one more than the number
/// of newlines strictly before it.
pub open spec fn line_at(s: Seq<u8>, j: nat) -> nat {
    1 + nl_count(s, 0, j)
}

/// The end of the number literal that starts at `i`: a maximal digit
/// run, then, if a `.` follows, the `.` and a second maximal digit run.
/// A second `.` is never consumed.  When `s[i]` is itself `.`, the first
/// run is empty and the fractional digits follow the leading `.`.
pub open spec fn number_end(s: Seq<u8>, i: nat) -> nat {
    let d = digits_end(s, i);
    if d < s.len() && s[d as int] == DOT {
        digits_end(s, d + 1)
    } else {
        d
    }
}

/// One step of the scanner: the token or error produced, and the byte
/// offset and line counter the cursor is left at.
pub struct ScanStep {
    /// The token produced, or the lexical error hit.
    pub result: Result<Token, LexError>,
    /// The byte offset of the first byte not consumed by this step.
    pub pos: nat,
    /// The line counter after this step.
    pub line: nat,
}

/// What one call of the scanner does from byte offset `pos` with line
/// counter `line`: skip whitespace (counting newlines), then classify
/// the first significant byte and consume exactly one lexeme.
pub open spec fn scan_from(s: Seq<u8>, pos: nat, line: nat) -> ScanStep {
    let p = ws_end(s, pos);
    let l = line + nl_count(s, pos, p);
    if p >= s.len() {
        ScanStep {
            result: Ok(
                Token {
                    kind: TokenKind::EndOfInput,
                    start: p as usize,
                    end: p as usize,
                    line: l as usize,
                },
            ),
            pos: p,
            line: l,
        }
    } else {
        let b = s[p as int];
        if b == EQUALS {
            ScanStep {
                result: Ok(
                    Token {
                        kind: TokenKind::Equal,
                        start: p as usize,
                        end: (p + 1) as usize,
                        line: l as usize,
                    },
                ),
                pos: p + 1,
                line: l,
            }
        } else if b == COLON {
            ScanStep {
                result: Ok(
                    Token {
                        kind: TokenKind::Colon,
                        start: p as usize,
                        end: (p + 1) as usize,
                        line: l as usize,
                    },
                ),
                pos: p + 1,
                line: l,
            }
        } else if is_digit(b) || b == DOT {
            let e = number_end(s, p);
            ScanStep {
                result: Ok(
                    Token {
                        kind: TokenKind::Number,
                        start: p as usize,
                        end: e as usize,
                        line: l as usize,
                    },
                ),
                pos: e,
                line: l,
            }
        } else if is_alpha(b) {
            let e = alnum_end(s, p + 1);
            ScanStep {
                result: Ok(
                    Token {
                        kind: TokenKind::Identifier,
                        start: p as usize,
                        end: e as usize,
                        line: l as usize,
                    },
                ),
                pos: e,
                line: l,
            }
        } else if b == QUOTE {
            let e = string_end(s, p + 1);
            if e < s.len() && s[e as int] == QUOTE {
                ScanStep {
                    result: Ok(
                        Token {
                            kind: TokenKind::Str,
                            start: (p + 1) as usize,
                            end: e as usize,
                            line: l as usize,
                        },
                    ),
                    pos: e + 1,
                    line: l,
                }
            } else {
                ScanStep { result: Err(LexError::UnterminatedString(l as usize)), pos: e, line: l }
            }
        } else {
            ScanStep {
                result: Err(LexError::UnexpectedCharacter(b, l as usize)),
                pos: p + 1,
                line: l,
            }
        }
    }
}

/// `ws_end` never moves backwards nor past the end of the source, skips
/// only whitespace, and stops at the first significant byte.
pub proof fn lemma_ws_end(s: Seq<u8>, i: nat)
    requires
        i <= s.len(),
    ensures
        i <= ws_end(s, i) <= s.len(),
        forall|k: int| i <= k < ws_end(s, i) ==> is_whitespace(s[k]),
        ws_end(s, i) < s.len() ==> !is_whitespace(s[ws_end(s, i) as int]),
    decreases s.len() - i,
{
    if i < s.len() && is_whitespace(s[i as int]) {
        lemma_ws_end(s, i + 1);
    }
}

/// `digits_end` never moves backwards nor past the end of the source,
/// passes only digits, and stops at the first non-digit.
pub proof fn lemma_digits_end(s: Seq<u8>, i: nat)
    requires
        i <= s.len(),
    ensures
        i <= digits_end(s, i) <= s.len(),
        forall|k: int| i <= k < digits_end(s, i) ==> is_digit(s[k]),
        digits_end(s, i) < s.len() ==> !is_digit(s[digits_end(s, i) as int]),
    decreases s.len() - i,
{
    if i < s.len() && is_digit(s[i as int]) {
        lemma_digits_end(s, i + 1);
    }
}

/// `alnum_end` never moves backwards nor past the end of the source,
/// passes only alphanumerics, and stops at the first other byte.
pub proof fn lemma_alnum_end(s: Seq<u8>, i: nat)
    requires
        i <= s.len(),
    ensures
        i <= alnum_end(s, i) <= s.len(),
        forall|k: int| i <= k < alnum_end(s, i) ==> is_alnum(s[k]),
        alnum_end(s, i) < s.len() ==> !is_alnum(s[alnum_end(s, i) as int]),
    decreases s.len() - i,
{
    if i < s.len() && is_alnum(s[i as int]) {
        lemma_alnum_end(s, i + 1);
    }
}

/// `string_end` never moves backwards nor past the end of the source,
/// passes only string-content bytes, and stops at the first quote or
/// newline (or the end of the source).
pub proof fn lemma_string_end(s: Seq<u8>, i: nat)
    requires
        i <= s.len(),
    ensures
        i <= string_end(s, i) <= s.len(),
        forall|k: int| i <= k < string_end(s, i) ==> is_string_byte(s[k]),
        string_end(s, i) < s.len() ==> !is_string_byte(s[string_end(s, i) as int]),
    decreases s.len() - i,
{
    if i < s.len() && is_string_byte(s[i as int]) {
        lemma_string_end(s, i + 1);
    }
}

/// There are never more newlines in a range than bytes in it.
pub proof fn lemma_nl_count_bound(s: Seq<u8>, i: nat, j: nat)
    requires
        i <= j,
    ensures
        nl_count(s, i, j) <= j - i,
    decreases j - i,
{
    if i < j && i < s.len() {
        lemma_nl_count_bound(s, i + 1, j);
    }
}

/// Newline counts over adjacent ranges add up.
pub proof fn lemma_nl_count_concat(s: Seq<u8>, i: nat, j: nat, k: nat)
    requires
        i <= j <= k,
    ensures
        nl_count(s, i, k) == nl_count(s, i, j) + nl_count(s, j, k),
    decreases j - i,
{
    if i < j && i < s.len() {
        lemma_nl_count_concat(s, i + 1, j, k);
    } else if i < j {
        // `i` is at or past the end of the source, so both whole-range
        // counts are zero.
        lemma_nl_count_bound(s, i, j);
        lemma_nl_count_empty_tail(s, i, k);
        lemma_nl_count_empty_tail(s, j, k);
    }
}

/// Stepping one byte forward raises the line number exactly when the
/// byte passed is a newline.
pub proof fn lemma_line_at_step(s: Seq<u8>, j: nat)
    requires
        j < s.len(),
    ensures
        line_at(s, j + 1) == line_at(s, j) + (if s[j as int] == NL {
            1nat
        } else {
            0nat
        }),
{
    lemma_nl_count_concat(s, 0, j, j + 1);
    assert(nl_count(s, j + 1, j + 1) == 0);
}

/// A range that starts at or past the end of the source holds no
/// newlines.
pub proof fn lemma_nl_count_empty_tail(s: Seq<u8>, i: nat, j: nat)
    requires
        s.len() <= i,
    ensures
        nl_count(s, i, j) == 0,
{
}

/// Whether a scan result ends the stream: the terminal end-of-input
/// token, or any lexical error.
pub open spec fn is_terminal(r: Result<Token, LexError>) -> bool {
    match r {
        Ok(t) => t.kind == TokenKind::EndOfInput,
        Err(_) => true,
    }
}

/// A scanner state the machine can represent: the offset is inside the
/// source, the line counter is 1-based, and neither can overflow a
/// `usize` while the rest of the source is scanned.
pub open spec fn scan_state_ok(s: Seq<u8>, pos: nat, line: nat) -> bool {
    &&& pos <= s.len() <= usize::MAX
    &&& 1 <= line
    &&& line + (s.len() - pos) <= usize::MAX
}

/// A number lexeme split at `m`: digits up to `m`, then either
/// nothing, or a single `.` followed by digits to the end.
pub open spec fn number_shape(s: Seq<u8>, start: int, m: int, end: int) -> bool {
    &&& start <= m <= end
    &&& forall|k: int| start <= k < m ==> is_digit(s[k])
    &&& (m == end || (s[m] == DOT && forall|k: int| m < k < end ==> is_digit(s[k])))
}

/// The span of a token holds exactly the lexeme its kind names: the
/// right character classes inside, maximality at the right end, and
/// for string literals a quote on each side of the span.
pub open spec fn span_matches_kind(s: Seq<u8>, t: Token) -> bool {
    match t.kind {
        TokenKind::Identifier => {
            &&& t.start < t.end
            &&& is_alpha(s[t.start as int])
            &&& forall|k: int| t.start < k < t.end ==> is_alnum(s[k])
            &&& (t.end == s.len() || !is_alnum(s[t.end as int]))
        },
        TokenKind::Number => {
            &&& t.start < t.end
            &&& exists|m: int| #[trigger] number_shape(s, t.start as int, m, t.end as int)
            &&& (t.end == s.len() || !is_digit(s[t.end as int]))
        },
        TokenKind::Str => {
            &&& 1 <= t.start
            &&& s[t.start - 1] == QUOTE
            &&& t.end < s.len()
            &&& s[t.end as int] == QUOTE
            &&& forall|k: int| t.start <= k < t.end ==> is_string_byte(s[k])
        },
        TokenKind::Equal => t.end == t.start + 1 && s[t.start as int] == EQUALS,
        TokenKind::Colon => t.end == t.start + 1 && s[t.start as int] == COLON,
        TokenKind::EndOfInput => t.start == t.end,
    }
}

/// One scan step stays inside the source, moves strictly forward
/// unless it is terminal, never lowers the line counter, and every
/// token it yields sits between the old and the new cursor with a span
/// that holds exactly its lexeme.
pub proof fn lemma_scan_from_ok(s: Seq<u8>, pos: nat, line: nat)
    requires
        scan_state_ok(s, pos, line),
    ensures
        ({
            let st = scan_from(s, pos, line);
            &&& pos <= st.pos <= s.len()
            &&& line <= st.line
            &&& scan_state_ok(s, st.pos, st.line)
            &&& (!is_terminal(st.result) ==> pos < st.pos)
            &&& match st.result {
                Ok(t) => {
                    &&& pos <= t.start <= t.end <= s.len()
                    &&& t.end <= st.pos
                    &&& t.line == st.line
                    &&& (t.kind == TokenKind::EndOfInput ==> t.start == st.pos && t.end
                        == st.pos)
                    &&& span_matches_kind(s, t)
                },
                Err(_) => true,
            }
        }),
{
    lemma_ws_end(s, pos);
    let p = ws_end(s, pos);
    lemma_nl_count_bound(s, pos, p);
    if p < s.len() {
        let b = s[p as int];
        if b == EQUALS || b == COLON {
        } else if is_digit(b) || b == DOT {
            lemma_digits_end(s, p);
            lemma_digits_end(s, p + 1);
            let d = digits_end(s, p);
            let e = number_end(s, p);
            if d < s.len() && s[d as int] == DOT {
                lemma_digits_end(s, d + 1);
            }
            assert(number_shape(s, p as int, d as int, e as int));
        } else if is_alpha(b) {
            lemma_alnum_end(s, p + 1);
        } else if b == QUOTE {
            lemma_string_end(s, p + 1);
        }
    }
}

/// The full token sequence produced from a scanner state: one result
/// per scan step, up to and including the terminal end-of-input token
/// or the first lexical error.
pub open spec fn stream_from(s: Seq<u8>, pos: nat, line: nat) -> Seq<Result<Token, LexError>>
    decreases s.len() - pos
        when scan_state_ok(s, pos, line)
        via stream_from_decreases
{
    let st = scan_from(s, pos, line);
    if is_terminal(st.result) {
        seq![st.result]
    } else {
        seq![st.result] + stream_from(s, st.pos, st.line)
    }
}

#[via_fn]
proof fn stream_from_decreases(s: Seq<u8>, pos: nat, line: nat) {
    lemma_scan_from_ok(s, pos, line);
}

} // verus!
