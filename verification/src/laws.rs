//! Properties of the token stream, stated once over the model and
//! proved for every source text.
//!
//! [`crate::lexer::Lexer::next_token`] and [`crate::lexer::tokens`]
//! are specified against [`crate::scan::scan_from`] and
//! [`crate::scan::stream_from`], so everything proved here about those
//! model functions holds of the executable scanner as well.

use vstd::prelude::*;

use crate::scan::is_terminal;
use crate::scan::is_whitespace;
use crate::scan::lemma_nl_count_bound;
use crate::scan::lemma_scan_from_ok;
use crate::scan::lemma_ws_end;
use crate::scan::nl_count;
use crate::scan::scan_from;
use crate::scan::scan_state_ok;
use crate::scan::span_matches_kind;
use crate::scan::stream_from;
use crate::scan::ws_end;
use crate::token::LexError;
use crate::token::Token;
use crate::token::TokenKind;

verus! {

/// A scan result respects a cursor state: any token it holds starts at
/// or after `pos`, its span lies inside the source and holds exactly
/// the lexeme of its kind, and its line is at or after `line`.
pub open spec fn token_within(r: Result<Token, LexError>, s: Seq<u8>, pos: nat, line: nat) -> bool {
    match r {
        Ok(t) => {
            &&& pos <= t.start <= t.end <= s.len()
            &&& line <= t.line
            &&& span_matches_kind(s, t)
        },
        Err(_) => true,
    }
}

/// Two scan results, in stream order, do not overlap: the earlier
/// token ends at or before the later one starts, and its line is at
/// or before the later one's.
pub open spec fn tokens_ordered(r1: Result<Token, LexError>, r2: Result<Token, LexError>) -> bool {
    match (r1, r2) {
        (Ok(t1), Ok(t2)) => t1.end <= t2.start && t1.line <= t2.line,
        _ => true,
    }
}

/// The shape of every token stream.  From any reachable cursor state:
/// the stream is non-empty and ends in its only terminal result (the
/// end-of-input token or a lexical error); every token's span lies
/// inside the source, holds exactly the lexeme its kind names, and
/// starts at or after the cursor; and the tokens come in
/// non-decreasing span order without overlap, with non-decreasing
/// line numbers.
pub proof fn lemma_stream_wf(s: Seq<u8>, pos: nat, line: nat)
    requires
        scan_state_ok(s, pos, line),
    ensures
        ({
            let ts = stream_from(s, pos, line);
            &&& 1 <= ts.len()
            &&& is_terminal(ts.last())
            &&& forall|i: int| 0 <= i < ts.len() - 1 ==> !is_terminal(#[trigger] ts[i])
            &&& forall|i: int| 0 <= i < ts.len() ==> token_within(#[trigger] ts[i], s, pos, line)
            &&& forall|i: int, j: int|
                0 <= i < j < ts.len() ==> tokens_ordered(#[trigger] ts[i], #[trigger] ts[j])
        }),
    decreases s.len() - pos,
{
    let st = scan_from(s, pos, line);
    let ts = stream_from(s, pos, line);
    lemma_scan_from_ok(s, pos, line);
    if !is_terminal(st.result) {
        let rest = stream_from(s, st.pos, st.line);
        lemma_stream_wf(s, st.pos, st.line);
        assert(ts == seq![st.result] + rest);
        assert(ts.last() == rest.last());
        assert forall|i: int| 0 <= i < ts.len() implies token_within(
            #[trigger] ts[i],
            s,
            pos,
            line,
        ) by {
            if i > 0 {
                assert(token_within(rest[i - 1], s, st.pos, st.line));
            }
        }
        assert forall|i: int, j: int| 0 <= i < j < ts.len() implies tokens_ordered(
            #[trigger] ts[i],
            #[trigger] ts[j],
        ) by {
            if i == 0 {
                assert(token_within(rest[j - 1], s, st.pos, st.line));
            } else {
                assert(tokens_ordered(rest[i - 1], rest[j - 1]));
            }
        }
    }
}

/// An input of whitespace alone yields exactly one result: the
/// zero-length end-of-input token at the end of the source, on line
/// 1 + the number of newlines in the input.
pub proof fn lemma_whitespace_only(s: Seq<u8>)
    requires
        s.len() < usize::MAX,
        forall|k: int| 0 <= k < s.len() ==> is_whitespace(s[k]),
    ensures
        stream_from(s, 0, 1) == seq![
            Ok::<Token, LexError>(
                Token {
                    kind: TokenKind::EndOfInput,
                    start: s.len() as usize,
                    end: s.len() as usize,
                    line: (1 + nl_count(s, 0, s.len())) as usize,
                },
            ),
        ],
{
    lemma_ws_end(s, 0);
    lemma_nl_count_bound(s, 0, s.len());
    assert(ws_end(s, 0) == s.len());
}

/// Scanning is a pure function of the source text: a fresh scan of the
/// same bytes always yields the identical token sequence.  Together
/// with the contract of [`crate::lexer::tokens`] (and of
/// [`crate::lexer::Lexer::next_token`], whose every step is a function
/// of source, offset and line alone), re-scanning a source from a
/// freshly constructed scanner can never diverge from an earlier scan.
pub proof fn lemma_rescan_identical(s1: Seq<u8>, s2: Seq<u8>)
    requires
        s1 == s2,
    ensures
        stream_from(s1, 0, 1) == stream_from(s2, 0, 1),
{
}

} // verus!
