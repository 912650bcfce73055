//! The block locator: finds the byte span of the object bound to the key
//! `"sExtOptions"`.

use crate::bytes::{
    ascii_bytes, find, first_occurrence, lemma_first_occurrence_exists, lemma_first_occurrence_is,
    literal_bytes, occurs_at, CLOSE_BRACE, COLON, OPEN_BRACE,
};
use crate::error::EditError;
use crate::runs::{
    lemma_closing_brace_moves, lemma_closing_brace_split, lemma_same_run_before, normal, reaches,
};
use crate::scan::{lemma_step_basics, scan_step, step, Mode, ScanState, Token};
use crate::space::{skip_ascii_space, skip_space};
use vstd::prelude::*;

verus! {

/// The key literal, quotes and all, whose value is the block.
pub open spec fn block_key() -> Seq<u8> {
    ascii_bytes("\"sExtOptions\""@)
}

/// The key literal, quotes and all, whose value is the block.
pub fn block_key_bytes() -> (key: &'static [u8])
    ensures
        key@ == block_key(),
{
    proof {
        reveal_strlit("\"sExtOptions\"");
    }
    literal_bytes("\"sExtOptions\"")
}

/// The offset of the `}` that brings the brace depth back to zero, when the
/// scanner continues at `at` in state `st` with `depth` braces open. Braces
/// inside strings and comments are no tokens and do not count.
pub open spec fn closing_brace(s: Seq<u8>, at: int, st: ScanState, depth: int) -> Option<int>
    decreases s.len() - at,
{
    if 0 <= at < s.len() {
        let r = step(s, at, st);
        match r.token {
            Token::OpenBrace => closing_brace(s, at + 1, r.next, depth + 1),
            Token::CloseBrace => if depth == 1 {
                Some(at)
            } else {
                closing_brace(s, at + 1, r.next, depth - 1)
            },
            _ => closing_brace(s, at + r.width, r.next, depth),
        }
    } else {
        None
    }
}

/// Where the block of a document lies: the offsets of its opening brace and of
/// the matching closing brace, or the reason why there is no such span.
pub open spec fn block_span(s: Seq<u8>) -> Result<(int, int), EditError> {
    match first_occurrence(s, block_key()) {
        None => Err(EditError::BlockNotFound),
        Some(key_at) => {
            let colon = skip_ascii_space(s, key_at + block_key().len());
            if !(colon < s.len() && s[colon] == COLON) {
                Err(EditError::MalformedBlockHeader)
            } else {
                let open = skip_ascii_space(s, colon + 1);
                if !(open < s.len() && s[open] == OPEN_BRACE) {
                    Err(EditError::BlockNotObject)
                } else {
                    match closing_brace(s, open, ScanState::initial(), 0) {
                        Some(close) => Ok((open, close)),
                        None => Err(EditError::UnterminatedBlock),
                    }
                }
            }
        },
    }
}

/// What a token adds to the brace depth.
pub open spec fn brace_delta(token: Token) -> int {
    match token {
        Token::OpenBrace => 1,
        Token::CloseBrace => -1,
        _ => 0,
    }
}

/// The braces opened minus the braces closed by the tokens at offsets below
/// `stop`, when the scanner continues at `at` in state `st`.
pub open spec fn depth_change(s: Seq<u8>, at: int, st: ScanState, stop: int) -> int
    decreases s.len() - at,
{
    if 0 <= at < stop && at < s.len() {
        let r = step(s, at, st);
        brace_delta(r.token) + depth_change(s, at + r.width, r.next, stop)
    } else {
        0
    }
}

/// The token that the scanner, continuing at `at` in state `st`, reports for
/// the byte at `pos`; `None` if it never stops there.
pub open spec fn token_at(s: Seq<u8>, at: int, st: ScanState, pos: int) -> Option<Token>
    decreases s.len() - at,
{
    if 0 <= at <= pos && at < s.len() {
        let r = step(s, at, st);
        if at == pos {
            Some(r.token)
        } else {
            token_at(s, at + r.width, r.next, pos)
        }
    } else {
        None
    }
}

/// The closing brace found with `depth` braces open is a structural `}`; the
/// depth is zero right after it and at least one everywhere before it.
pub proof fn lemma_closing_brace_balances(
    s: Seq<u8>,
    at: int,
    st: ScanState,
    depth: int,
    close: int,
)
    requires
        0 <= at,
        depth >= 1,
        closing_brace(s, at, st, depth) == Some(close),
    ensures
        at <= close < s.len(),
        token_at(s, at, st, close) == Some(Token::CloseBrace),
        depth + depth_change(s, at, st, close + 1) == 0,
        forall|k: int| at <= k <= close ==> depth + #[trigger] depth_change(s, at, st, k) >= 1,
    decreases s.len() - at,
{
    lemma_step_basics(s, at, st);
    let r = step(s, at, st);
    if r.token == Token::CloseBrace && depth == 1 {
        assert(depth_change(s, at + 1, r.next, at + 1) == 0);
        assert forall|k: int| at <= k <= close implies depth + #[trigger] depth_change(
            s,
            at,
            st,
            k,
        ) >= 1 by {
            assert(depth_change(s, at, st, at) == 0);
        }
    } else {
        let deeper = depth + brace_delta(r.token);
        let on = at + r.width;
        lemma_closing_brace_balances(s, on, r.next, deeper, close);
        assert forall|k: int| at <= k <= close implies depth + #[trigger] depth_change(
            s,
            at,
            st,
            k,
        ) >= 1 by {
            if k == at {
                assert(depth_change(s, at, st, at) == 0);
            } else if k < on {
                assert(depth_change(s, on, r.next, k) == 0);
            } else {
                assert(deeper + depth_change(s, on, r.next, k) >= 1);
            }
        }
    }
}

/// The span of a located block balances its braces: it opens with a
/// structural `{`, closes with a structural `}`, the depth returns to zero at
/// the closing brace and nowhere before it. Braces in strings and comments
/// are no tokens, so none of them is counted.
pub proof fn lemma_block_span_balanced(s: Seq<u8>)
    requires
        block_span(s) is Ok,
    ensures
        ({
            let (open, close) = block_span(s)->Ok_0;
            &&& 0 <= open < close < s.len()
            &&& s[open] == OPEN_BRACE
            &&& s[close] == CLOSE_BRACE
            &&& token_at(s, open, ScanState::initial(), open) == Some(Token::OpenBrace)
            &&& token_at(s, open, ScanState::initial(), close) == Some(Token::CloseBrace)
            &&& depth_change(s, open, ScanState::initial(), close + 1) == 0
            &&& forall|k: int|
                open < k <= close ==> #[trigger] depth_change(s, open, ScanState::initial(), k)
                    >= 1
        }),
{
    let (open, close) = block_span(s)->Ok_0;
    let key_at = first_occurrence(s, block_key())->Some_0;
    let colon = skip_ascii_space(s, key_at + block_key().len());
    let init = ScanState::initial();
    let r = step(s, open, init);
    assert(r.token == Token::OpenBrace);
    lemma_closing_brace_balances(s, open + 1, r.next, 1, close);
    assert forall|k: int| open < k <= close implies #[trigger] depth_change(s, open, init, k)
        >= 1 by {
        assert(1 + depth_change(s, open + 1, r.next, k) >= 1);
    }
    lemma_token_at_close(s, open, init, close);
}

/// A position where the scanner reports a closing brace holds a `}`.
proof fn lemma_token_at_close(s: Seq<u8>, at: int, st: ScanState, pos: int)
    requires
        token_at(s, at, st, pos) == Some(Token::CloseBrace),
    ensures
        0 <= pos < s.len(),
        s[pos] == CLOSE_BRACE,
    decreases s.len() - at,
{
    if at != pos {
        let r = step(s, at, st);
        lemma_token_at_close(s, at + r.width, r.next, pos);
    }
}

/// Finds the matching closing brace for the opening brace at `open`.
fn find_closing_brace(bytes: &[u8], open: usize) -> (r: Option<usize>)
    requires
        open < bytes.len(),
        bytes[open as int] == OPEN_BRACE,
    ensures
        r matches Some(close) ==> closing_brace(bytes@, open as int, ScanState::initial(), 0)
            == Some(close as int) && open < close < bytes.len(),
        r is None ==> closing_brace(bytes@, open as int, ScanState::initial(), 0) is None,
{
    let mut at: usize = open;
    let mut st = ScanState::start();
    let mut depth: usize = 0;
    while at < bytes.len()
        invariant
            open <= at <= bytes.len(),
            open < bytes.len(),
            bytes[open as int] == OPEN_BRACE,
            depth <= at - open,
            at == open ==> st == ScanState::initial() && depth == 0,
            at > open ==> depth >= 1,
            closing_brace(bytes@, open as int, ScanState::initial(), 0) == closing_brace(
                bytes@,
                at as int,
                st,
                depth as int,
            ),
        decreases bytes.len() - at,
    {
        let r = scan_step(bytes, at, st);
        match r.token {
            Token::OpenBrace => {
                depth += 1;
            },
            Token::CloseBrace => {
                if depth == 1 {
                    return Some(at);
                }
                depth -= 1;
            },
            _ => {},
        }
        st = r.next;
        at += r.width;
    }
    None
}

/// Locates the block: the offset of the opening brace of the object bound to
/// `"sExtOptions"` and the offset of its matching closing brace.
pub fn find_ext_options_block(content: &[u8]) -> (r: Result<(usize, usize), EditError>)
    ensures
        match r {
            Ok((open, close)) => block_span(content@) == Ok::<(int, int), EditError>(
                (open as int, close as int),
            ) && open < close < content.len(),
            Err(e) => block_span(content@) == Err::<(int, int), EditError>(e),
        },
{
    let key = block_key_bytes();
    let key_at: usize = match find(content, key) {
        None => {
            return Err(EditError::BlockNotFound);
        },
        Some(key_at) => key_at,
    };
    assert(occurs_at(content@, key@, key_at as int));
    let len: usize = content.len();
    let colon: usize = skip_space(content, key_at + key.len());
    if colon >= len || content[colon] != COLON {
        return Err(EditError::MalformedBlockHeader);
    }
    let open: usize = skip_space(content, colon + 1);
    if open >= len || content[open] != OPEN_BRACE {
        return Err(EditError::BlockNotObject);
    }
    match find_closing_brace(content, open) {
        Some(close) => Ok((open, close)),
        None => Err(EditError::UnterminatedBlock),
    }
}

/// Skipping whitespace looks at no byte behind the one it stops at.
pub proof fn lemma_skip_reads_head_only(a: Seq<u8>, b: Seq<u8>, from: int, upto: int)
    requires
        0 <= from,
        upto <= a.len(),
        upto <= b.len(),
        a.subrange(0, upto) == b.subrange(0, upto),
        skip_ascii_space(a, from) < upto,
    ensures
        skip_ascii_space(b, from) == skip_ascii_space(a, from),
    decreases a.len() - from,
{
    crate::space::lemma_skip_ascii_space(a, from);
    assert(a[from] == b[from]) by {
        assert(a.subrange(0, upto)[from] == a[from]);
        assert(b.subrange(0, upto)[from] == b[from]);
    }
    if crate::space::is_ascii_space(a[from]) {
        lemma_skip_reads_head_only(a, b, from + 1, upto);
    }
}

/// A document that agrees with a document that has a block, up to the
/// opening brace of that block, has a block that opens there too, if a
/// closing brace matches.
pub proof fn lemma_block_span_of_edit(raw: Seq<u8>, out: Seq<u8>, close: int)
    requires
        block_span(raw) is Ok,
        block_span(raw)->Ok_0.0 + 1 <= out.len(),
        out.subrange(0, block_span(raw)->Ok_0.0 + 1) == raw.subrange(
            0,
            block_span(raw)->Ok_0.0 + 1,
        ),
        closing_brace(out, block_span(raw)->Ok_0.0, ScanState::initial(), 0) == Some(close),
    ensures
        block_span(out) == Ok::<(int, int), EditError>((block_span(raw)->Ok_0.0, close)),
{
    let open = block_span(raw)->Ok_0.0;
    let key = block_key();
    assert(key.len() == 13) by {
        reveal_strlit("\"sExtOptions\"");
    }
    let found = choose|at: int| occurs_at(raw, key, at);
    lemma_first_occurrence_exists(raw, key, found);
    let key_at = first_occurrence(raw, key)->Some_0;
    let colon = skip_ascii_space(raw, key_at + 13);
    crate::space::lemma_skip_ascii_space(raw, key_at + 13);
    crate::space::lemma_skip_ascii_space(raw, colon + 1);
    assert(open == skip_ascii_space(raw, colon + 1));
    assert forall|k: int| 0 <= k <= open implies raw[k] == out[k] by {
        assert(raw.subrange(0, open + 1)[k] == raw[k]);
        assert(out.subrange(0, open + 1)[k] == out[k]);
    }
    assert(occurs_at(out, key, key_at)) by {
        assert(out.subrange(key_at, key_at + 13) =~= raw.subrange(key_at, key_at + 13));
    }
    assert forall|b: int| 0 <= b < key_at implies !occurs_at(out, key, b) by {
        if occurs_at(out, key, b) {
            assert(raw.subrange(b, b + 13) =~= out.subrange(b, b + 13));
            assert(occurs_at(raw, key, b));
        }
    }
    lemma_first_occurrence_is(out, key, key_at);
    lemma_skip_reads_head_only(raw, out, key_at + 13, open + 1);
    lemma_skip_reads_head_only(raw, out, colon + 1, open + 1);
}

/// The text with one more byte at `at`.
pub open spec fn with_byte(s: Seq<u8>, at: int, byte: u8) -> Seq<u8> {
    s.subrange(0, at) + seq![byte] + s.subrange(at, s.len() as int)
}

/// A brace inside a string or a comment changes neither the depth nor the
/// brace that closes the block: put into the block where the scanner stands
/// in a string, not behind a backslash, or in a comment, it leaves the block
/// where it was, one byte longer.
pub proof fn lemma_brace_in_string_or_comment(raw: Seq<u8>, at: int, st: ScanState, brace: u8)
    requires
        block_span(raw) is Ok,
        block_span(raw)->Ok_0.0 < at <= block_span(raw)->Ok_0.1,
        reaches(raw, block_span(raw)->Ok_0.0, ScanState::initial(), at, st),
        st.mode != Mode::Normal,
        !st.escape,
        brace == OPEN_BRACE || brace == CLOSE_BRACE,
    ensures
        block_span(with_byte(raw, at, brace)) == Ok::<(int, int), EditError>(
            (block_span(raw)->Ok_0.0, block_span(raw)->Ok_0.1 + 1),
        ),
{
    lemma_block_span_balanced(raw);
    let (open, close) = block_span(raw)->Ok_0;
    let out = with_byte(raw, at, brace);
    let first = step(raw, open, ScanState::initial());
    assert(first.next == normal() && first.width == 1 && first.token == Token::OpenBrace);
    assert(closing_brace(raw, open + 1, normal(), 1) == Some(close));
    assert(reaches(raw, open + 1, normal(), at, st));
    lemma_closing_brace_balances(raw, open + 1, normal(), 1, close);
    lemma_closing_brace_split(raw, open + 1, normal(), 1, at, st);
    let depth = 1 + depth_change(raw, open + 1, normal(), at);
    assert(raw.subrange(open + 1, at) =~= out.subrange(open + 1, at));
    assert(out[at] == brace);
    lemma_same_run_before(raw, out, open + 1, normal(), at, st);
    assert forall|k: int| open + 1 <= k <= at implies 1 + #[trigger] depth_change(
        out,
        open + 1,
        normal(),
        k,
    ) >= 1 by {
        assert(1 + depth_change(raw, open + 1, normal(), k) >= 1);
    }
    lemma_closing_brace_split(out, open + 1, normal(), 1, at, st);
    let here = step(out, at, st);
    assert(here.next == st && here.width == 1 && here.token == Token::Inert);
    assert(closing_brace(out, at, st, depth) == closing_brace(out, at + 1, st, depth));
    assert(out.subrange(at + 1, out.len() as int) =~= raw.subrange(at, raw.len() as int));
    lemma_closing_brace_moves(raw, at, out, at + 1, st, depth);
    assert(out[open] == OPEN_BRACE);
    let again = step(out, open, ScanState::initial());
    assert(again.next == normal() && again.width == 1 && again.token == Token::OpenBrace);
    assert(closing_brace(out, open, ScanState::initial(), 0) == Some(close + 1));
    assert(out.subrange(0, open + 1) =~= raw.subrange(0, open + 1));
    lemma_block_span_of_edit(raw, out, close + 1);
}

} // verus!
