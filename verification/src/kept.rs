//! What an insert keeps of a block: the scanner reads the kept part of the
//! new block as it read it in the old one.

use crate::bytes::{
    lemma_occurrence_bytes, occurs_at, CARRIAGE_RETURN, CLOSE_BRACE, COLON, COMMA, NEWLINE,
    OPEN_BRACE, QUOTE,
};
use crate::entry::{
    block_entries, entries_at, entries_from, entry_at, in_string, quoted_prefix, skip_colon_space,
    string_end, EntryView,
};
use crate::error::EditError;
use crate::insert::{input_texts, insert_result, kept_until, separator};
use crate::laws::lemma_insert_rewrites_blank_tail_only;
use crate::layout::{base_indent, entry_indent, entry_lines, line_ending, template_value, InputView};
use crate::locate::{
    block_span, closing_brace, depth_change, lemma_block_span_balanced, lemma_block_span_of_edit,
    lemma_closing_brace_balances,
};
use crate::quoted::is_string_body;
use crate::replace::pair_texts;
use crate::rescan::{
    all_plain, are_string_bodies, is_line_ending, lemma_indent_is_space, lemma_quoted_prefix_bytes,
    lemma_scan_written_block, lemma_skip_colon_space_bounds, lemma_space_is_plain, written_entries,
};
use crate::runs::{
    entries_between, is_plain, lemma_blank_stretch, lemma_closing_brace_reached,
    lemma_entries_split, lemma_mode_before_blanks, lemma_plain_stretch, lemma_reaches_bounds,
    lemma_reaches_chain, lemma_reaches_rest, lemma_reaches_wf, lemma_same_bytes_same_run,
    lemma_stands_at, lemma_string_closes, lemma_string_end_local, may_end_pair, normal, reaches,
    state_at,
};
use crate::scan::{lemma_step_basics, step, Mode, ScanState, Token};
use crate::space::{
    is_ascii_space, is_blank, is_blank_byte, is_space_byte, lemma_blank_has_no_quote,
};
use vstd::prelude::*;

verus! {

/// `new` agrees with `old` below `keep`. In `old` only blank bytes stand
/// between `keep` and the closing brace at `close`. In `new` a comma stands
/// at `keep`, or a line ending if `old` holds no quote behind `open` and below
/// `keep`.
pub open spec fn extends_kept(old: Seq<u8>, new: Seq<u8>, open: int, keep: int, close: int) -> bool {
    &&& 0 <= open < keep <= close < old.len()
    &&& keep < new.len()
    &&& forall|k: int| 0 <= k < keep ==> old[k] == new[k]
    &&& forall|k: int| keep <= k < close ==> is_blank_byte(#[trigger] old[k])
    &&& old[close] == CLOSE_BRACE
    &&& (new[keep] == COMMA || new[keep] == CARRIAGE_RETURN || new[keep] == NEWLINE)
    &&& new[keep] != COMMA ==> forall|k: int| open < k < keep ==> old[k] != QUOTE
}

/// Behind the kept part, skipping colons and whitespace stops at the comma
/// in the new block where it ran on to the closing brace in the old one.
proof fn lemma_skip_in_kept(
    old: Seq<u8>,
    new: Seq<u8>,
    open: int,
    keep: int,
    close: int,
    from: int,
)
    requires
        extends_kept(old, new, open, keep, close),
        new[keep] == COMMA,
        0 <= from <= close,
    ensures
        skip_colon_space(old, from) < keep ==> skip_colon_space(new, from) == skip_colon_space(
            old,
            from,
        ),
        skip_colon_space(old, from) >= keep ==> skip_colon_space(old, from) == close && (from
            <= keep ==> skip_colon_space(new, from) == keep),
    decreases close - from,
{
    lemma_skip_colon_space_bounds(old, from);
    if from < keep {
        assert(old[from] == new[from]);
        if old[from] == COLON || is_ascii_space(old[from]) {
            lemma_skip_in_kept(old, new, open, keep, close, from + 1);
        }
    } else if from < close {
        assert(is_blank_byte(old[from]));
        lemma_skip_in_kept(old, new, open, keep, close, from + 1);
        assert(!is_ascii_space(COMMA));
    } else {
        assert(!is_ascii_space(CLOSE_BRACE));
        assert(!is_ascii_space(COMMA));
    }
}

/// An entry that begins in the kept part is read from the new block as it
/// was read from the old one.
proof fn lemma_kept_entry(old: Seq<u8>, new: Seq<u8>, open: int, keep: int, close: int, at: int)
    requires
        extends_kept(old, new, open, keep, close),
        open < at < keep,
        old[at] == QUOTE,
        reaches(old, at, normal(), close, normal()),
    ensures
        entry_at(new, at) == entry_at(old, at),
{
    let first = step(old, at, normal());
    assert(first.next == in_string() && first.width == 1);
    lemma_string_closes(old, at + 1, in_string(), close);
    let key_end = string_end(old, at + 1)->Some_0;
    assert(key_end < keep) by {
        if key_end >= keep {
            assert(is_blank_byte(old[key_end]));
        }
    }
    lemma_string_end_local(old, new, at + 1, in_string(), key_end);
    assert(old.subrange(at + 1, key_end) =~= new.subrange(at + 1, key_end));
    lemma_skip_in_kept(old, new, open, keep, close, key_end + 1);
    lemma_skip_colon_space_bounds(old, key_end + 1);
    let quote = skip_colon_space(old, key_end + 1);
    if quote < keep {
        assert(old[quote] == new[quote]);
        if old[quote] == QUOTE {
            assert forall|k: int| key_end + 1 <= k < quote implies is_plain(#[trigger] old[k]) by {
                assert(old[k] == COLON || is_ascii_space(old[k]));
            }
            lemma_plain_stretch(old, key_end + 1, quote);
            lemma_reaches_rest(old, key_end + 1, normal(), quote, normal(), close, normal());
            let second = step(old, quote, normal());
            assert(second.next == in_string() && second.width == 1);
            lemma_string_closes(old, quote + 1, in_string(), close);
            let value_end = string_end(old, quote + 1)->Some_0;
            assert(value_end < keep) by {
                if value_end >= keep {
                    assert(is_blank_byte(old[value_end]));
                }
            }
            lemma_string_end_local(old, new, quote + 1, in_string(), value_end);
            assert(old.subrange(quote + 1, value_end) =~= new.subrange(quote + 1, value_end));
        }
    }
}

/// The scanner reports the same entries for the kept part of the new block
/// as for that part of the old block.
#[verifier::rlimit(80)]
pub proof fn lemma_kept_entries(
    old: Seq<u8>,
    new: Seq<u8>,
    open: int,
    keep: int,
    close: int,
    at: int,
    st: ScanState,
)
    requires
        extends_kept(old, new, open, keep, close),
        open < at <= keep,
        st.wf(),
        reaches(old, at, st, close, normal()),
    ensures
        entries_between(new, at, st, keep) == entries_between(old, at, st, keep),
    decreases keep - at,
{
    if at < keep {
        lemma_quoted_prefix_bytes();
        lemma_step_basics(old, at, st);
        assert(old[at] == new[at]);
        if at + 1 < keep {
            assert(old[at + 1] == new[at + 1]);
        } else {
            assert(!may_end_pair(new[keep]));
            assert(!may_end_pair(old[keep])) by {
                if keep < close {
                    assert(is_blank_byte(old[keep]));
                }
            }
        }
        let r = step(old, at, st);
        assert(step(new, at, st) == r);
        assert(at + r.width <= keep);
        lemma_reaches_bounds(old, at + r.width, r.next, close, normal());
        lemma_kept_entries(old, new, open, keep, close, at + r.width, r.next);
        assert(entries_at(new, at, r.token) == entries_at(old, at, r.token)) by {
            if r.token == Token::StringOpen {
                assert(st == normal());
                if occurs_at(old, quoted_prefix(), at) {
                    if at + 13 > keep {
                        lemma_occurrence_bytes(old, quoted_prefix(), at, keep - at);
                        if keep < close {
                            assert(is_blank_byte(old[keep]));
                        }
                    }
                    assert(new.subrange(at, at + 13) =~= old.subrange(at, at + 13));
                }
                if occurs_at(new, quoted_prefix(), at) {
                    if at + 13 > keep {
                        lemma_occurrence_bytes(new, quoted_prefix(), at, keep - at);
                        assert(is_space_byte(CARRIAGE_RETURN) && is_space_byte(NEWLINE));
                    }
                    assert(new.subrange(at, at + 13) =~= old.subrange(at, at + 13));
                    if new[keep] != COMMA {
                        assert(old[at] != QUOTE);
                    }
                    lemma_kept_entry(old, new, open, keep, close, at);
                }
            }
        }
    }
}

/// Over an optional comma and a line ending the scanner gets from normal
/// mode or from a line comment into normal mode, and reports nothing.
pub proof fn lemma_line_break(s: Seq<u8>, at: int, st: ScanState, stop: int)
    requires
        0 <= at < stop <= s.len(),
        st.mode == Mode::Normal || st.mode == Mode::InLineComment,
        !st.escape,
        forall|k: int| at <= k < stop - 1 ==> #[trigger] s[k] == COMMA || s[k] == CARRIAGE_RETURN,
        s[stop - 1] == NEWLINE,
    ensures
        reaches(s, at, st, stop, normal()),
        entries_between(s, at, st, stop) == Seq::<EntryView>::empty(),
        forall|k: int| k <= stop ==> #[trigger] depth_change(s, at, st, k) == 0,
    decreases stop - at,
{
    let r = step(s, at, st);
    if at == stop - 1 {
        assert(r.next == normal() && r.width == 1 && r.token == Token::Inert);
        assert(reaches(s, stop, normal(), stop, normal()));
        assert(entries_between(s, stop, normal(), stop) == Seq::<EntryView>::empty());
        assert forall|k: int| k <= stop implies #[trigger] depth_change(s, at, st, k) == 0 by {
            if at < k {
                assert(depth_change(s, stop, normal(), k) == 0);
            }
        }
    } else {
        assert(s[at] == COMMA || s[at] == CARRIAGE_RETURN);
        assert(r.next == st && r.width == 1 && r.token == Token::Inert);
        lemma_line_break(s, at + 1, st, stop);
        assert forall|k: int| k <= stop implies #[trigger] depth_change(s, at, st, k) == 0 by {
            if at < k {
                assert(depth_change(s, at + 1, st, k) == 0);
            }
        }
    }
}

/// In the old block the scanner stands at `keep` in normal mode or in a line
/// comment, with one brace open, and has reported every entry of the block
/// at that point.
proof fn lemma_old_block_at_keep(old: Seq<u8>, new: Seq<u8>, open: int, keep: int, close: int)
    requires
        extends_kept(old, new, open, keep, close),
        old[open] == OPEN_BRACE,
        reaches(old, open + 1, normal(), close, normal()),
        depth_change(old, open + 1, normal(), close) == 0,
    ensures
        ({
            let here = state_at(old, open + 1, normal(), keep);
            &&& reaches(old, open + 1, normal(), keep, here)
            &&& reaches(old, keep, here, close, normal())
            &&& here.mode == Mode::Normal || here.mode == Mode::InLineComment
            &&& !here.escape
            &&& depth_change(old, open + 1, normal(), keep) == 0
            &&& entries_between(old, open, ScanState::initial(), close + 1) == entries_between(
                old,
                open + 1,
                normal(),
                keep,
            )
            &&& reaches(old, open, ScanState::initial(), close + 1, normal())
        }),
{
    let here = state_at(old, open + 1, normal(), keep);
    assert(!may_end_pair(old[keep])) by {
        if keep < close {
            assert(is_blank_byte(old[keep]));
        }
    }
    lemma_stands_at(old, open + 1, normal(), keep, close, normal());
    lemma_reaches_wf(old, open + 1, normal(), keep, here);
    lemma_mode_before_blanks(old, keep, here, close);
    lemma_reaches_chain(old, open + 1, normal(), keep, here, close, normal());
    lemma_blank_stretch(old, keep, here, close);
    assert(depth_change(old, open + 1, normal(), close) == depth_change(
        old,
        open + 1,
        normal(),
        keep,
    ) + depth_change(old, keep, here, close));
    let found = entries_between(old, open + 1, normal(), keep);
    let first = step(old, open, ScanState::initial());
    assert(first.next == normal() && first.width == 1 && first.token == Token::OpenBrace);
    let last = step(old, close, normal());
    assert(last.next == normal() && last.width == 1 && last.token == Token::CloseBrace);
    assert(reaches(old, close + 1, normal(), close + 1, normal()));
    assert(reaches(old, close, normal(), close + 1, normal()));
    assert(entries_between(old, close + 1, normal(), close + 1) == Seq::<EntryView>::empty());
    assert(entries_between(old, close, normal(), close + 1) == Seq::<EntryView>::empty());
    lemma_reaches_chain(old, open + 1, normal(), close, normal(), close + 1, normal());
    assert(entries_between(old, open, ScanState::initial(), close + 1) == entries_at(
        old,
        open,
        Token::OpenBrace,
    ) + entries_between(old, open + 1, normal(), close + 1));
    assert(entries_between(old, open, ScanState::initial(), close + 1) =~= found);
}

/// In the new block the scanner stands behind the comma and the line ending
/// in normal mode, with one brace open, and has reported the entries of the
/// old block at that point.
#[verifier::rlimit(80)]
proof fn lemma_new_block_head(
    old: Seq<u8>,
    new: Seq<u8>,
    open: int,
    keep: int,
    close: int,
    head_end: int,
)
    requires
        extends_kept(old, new, open, keep, close),
        old[open] == OPEN_BRACE,
        reaches(old, open + 1, normal(), close, normal()),
        forall|k: int|
            open + 1 <= k <= close ==> 1 + #[trigger] depth_change(old, open + 1, normal(), k)
                >= 1,
        depth_change(old, open + 1, normal(), close) == 0,
        keep < head_end <= new.len(),
        forall|k: int|
            keep <= k < head_end - 1 ==> #[trigger] new[k] == COMMA || new[k] == CARRIAGE_RETURN,
        new[head_end - 1] == NEWLINE,
    ensures
        reaches(new, open + 1, normal(), head_end, normal()),
        forall|k: int|
            open + 1 <= k <= head_end ==> 1 + #[trigger] depth_change(new, open + 1, normal(), k)
                >= 1,
        depth_change(new, open + 1, normal(), head_end) == 0,
        entries_between(new, open + 1, normal(), head_end) == entries_between(
            old,
            open,
            ScanState::initial(),
            close + 1,
        ),
        reaches(old, open, ScanState::initial(), close + 1, normal()),
{
    let here = state_at(old, open + 1, normal(), keep);
    lemma_old_block_at_keep(old, new, open, keep, close);
    assert(old.subrange(open + 1, keep) =~= new.subrange(open + 1, keep));
    assert(!may_end_pair(new[keep]));
    assert(!may_end_pair(old[keep])) by {
        if keep < close {
            assert(is_blank_byte(old[keep]));
        }
    }
    lemma_same_bytes_same_run(
        old,
        open + 1,
        new,
        open + 1,
        keep - open - 1,
        normal(),
        here,
    );
    assert(reaches(new, open + 1, normal(), keep, here));
    lemma_line_break(new, keep, here, head_end);
    lemma_reaches_chain(new, open + 1, normal(), keep, here, head_end, normal());
    lemma_kept_entries(old, new, open, keep, close, open + 1, normal());
    assert(entries_between(new, open + 1, normal(), head_end) =~= entries_between(
        old,
        open + 1,
        normal(),
        keep,
    ));
    assert forall|j: int| j <= keep - open - 1 implies #[trigger] depth_change(
        new,
        open + 1,
        normal(),
        open + 1 + j,
    ) == depth_change(old, open + 1, normal(), open + 1 + j) by {
        assert(depth_change(old, open + 1, normal(), open + 1 + j) == depth_change(
            new,
            open + 1,
            normal(),
            open + 1 + j,
        ));
    }
    assert(depth_change(new, open + 1, normal(), keep) == 0) by {
        assert(depth_change(new, open + 1, normal(), open + 1 + (keep - open - 1))
            == depth_change(old, open + 1, normal(), open + 1 + (keep - open - 1)));
    }
    assert forall|k: int| open + 1 <= k <= head_end implies 1 + #[trigger] depth_change(
        new,
        open + 1,
        normal(),
        k,
    ) >= 1 by {
        if k <= keep {
            assert(depth_change(new, open + 1, normal(), open + 1 + (k - open - 1))
                == depth_change(old, open + 1, normal(), open + 1 + (k - open - 1)));
            assert(1 + depth_change(old, open + 1, normal(), k) >= 1);
        } else {
            assert(depth_change(new, keep, here, k) == 0);
        }
    }
    assert(depth_change(new, keep, here, head_end) == 0);
}

/// The scanner reads a block that an insert wrote. Let `new` keep `old` up to
/// `keep` and go on with an optional comma, a line ending, the lines for
/// `pairs`, some whitespace and a closing brace; let the brace at `close`
/// close the block of `old` that opens at `open`. The new brace closes the
/// block of `new`, and the scanner reports for it the entries of the old
/// block followed by the written entries.
#[verifier::rlimit(80)]
pub proof fn lemma_scan_inserted_block(
    old: Seq<u8>,
    new: Seq<u8>,
    open: int,
    keep: int,
    close: int,
    sep: Seq<u8>,
    ending: Seq<u8>,
    indent: Seq<u8>,
    pairs: Seq<(Seq<u8>, Seq<u8>)>,
    base: Seq<u8>,
)
    requires
        extends_kept(old, new, open, keep, close),
        old[open] == OPEN_BRACE,
        reaches(old, open + 1, normal(), close, normal()),
        forall|k: int|
            open + 1 <= k <= close ==> 1 + #[trigger] depth_change(old, open + 1, normal(), k)
                >= 1,
        depth_change(old, open + 1, normal(), close) == 0,
        sep == seq![COMMA] || sep == Seq::<u8>::empty(),
        is_line_ending(ending),
        keep + (sep + ending + entry_lines(indent, ending, pair_texts(pairs)) + base + seq![
            CLOSE_BRACE,
        ]).len() <= new.len(),
        new.subrange(
            keep,
            keep + (sep + ending + entry_lines(indent, ending, pair_texts(pairs)) + base + seq![
                CLOSE_BRACE,
            ]).len(),
        ) == sep + ending + entry_lines(indent, ending, pair_texts(pairs)) + base + seq![
            CLOSE_BRACE,
        ],
        all_plain(indent),
        all_plain(base),
        are_string_bodies(pairs),
    ensures
        ({
            let new_close = keep + sep.len() + ending.len() + entry_lines(
                indent,
                ending,
                pair_texts(pairs),
            ).len() + base.len();
            &&& closing_brace(new, open, ScanState::initial(), 0) == Some(new_close)
            &&& reaches(new, open, ScanState::initial(), new_close + 1, normal())
            &&& entries_between(new, open, ScanState::initial(), new_close + 1)
                == entries_between(old, open, ScanState::initial(), close + 1) + written_entries(
                pairs,
            )
            &&& reaches(old, open, ScanState::initial(), close + 1, normal())
        }),
{
    let lines = entry_lines(indent, ending, pair_texts(pairs));
    let tail = sep + ending + lines + base + seq![CLOSE_BRACE];
    let head_end = keep + sep.len() + ending.len();
    let lines_end = head_end + lines.len();
    let new_close = lines_end + base.len();
    assert forall|k: int| keep <= k < keep + tail.len() implies new[k] == tail[k - keep] by {
        assert(new.subrange(keep, keep + tail.len())[k - keep] == new[k]);
    }
    assert forall|k: int| keep <= k < head_end - 1 implies #[trigger] new[k] == COMMA || new[k]
        == CARRIAGE_RETURN by {
        assert(new[k] == tail[k - keep]);
        assert(tail[k - keep] == (sep + ending)[k - keep]);
    }
    assert(new[head_end - 1] == NEWLINE) by {
        assert(new[head_end - 1] == tail[head_end - 1 - keep]);
        assert(tail[head_end - 1 - keep] == (sep + ending)[head_end - 1 - keep]);
    }
    lemma_new_block_head(old, new, open, keep, close, head_end);
    assert(new[open] == OPEN_BRACE);
    assert(new.subrange(head_end, lines_end) =~= lines) by {
        assert forall|k: int| head_end <= k < lines_end implies new[k] == lines[k
            - head_end] by {
            assert(new[k] == tail[k - keep]);
        }
    }
    assert(new.subrange(lines_end, new_close) =~= base) by {
        assert forall|k: int| lines_end <= k < new_close implies new[k] == base[k
            - lines_end] by {
            assert(new[k] == tail[k - keep]);
        }
    }
    assert(new[new_close] == CLOSE_BRACE) by {
        assert(new[new_close] == tail[new_close - keep]);
    }
    lemma_scan_written_block(
        new,
        open,
        head_end,
        indent,
        ending,
        pairs,
        base,
        entries_between(old, open, ScanState::initial(), close + 1),
    );
}

/// In a document with a block, the scanner runs from behind the opening
/// brace to the closing brace in normal mode, with one brace open at the end
/// and at least one in between. The same holds of the block taken alone.
pub proof fn lemma_block_run(raw: Seq<u8>)
    requires
        block_span(raw) is Ok,
    ensures
        ({
            let (open, close) = block_span(raw)->Ok_0;
            let block = raw.subrange(open, close + 1);
            &&& 0 <= open < close < raw.len()
            &&& raw[open] == OPEN_BRACE
            &&& raw[close] == CLOSE_BRACE
            &&& reaches(raw, open + 1, normal(), close, normal())
            &&& depth_change(raw, open + 1, normal(), close) == 0
            &&& forall|k: int|
                open + 1 <= k <= close ==> 1 + #[trigger] depth_change(
                    raw,
                    open + 1,
                    normal(),
                    k,
                ) >= 1
            &&& reaches(block, 1, normal(), close - open, normal())
            &&& depth_change(block, 1, normal(), close - open) == 0
            &&& forall|k: int|
                1 <= k <= close - open ==> 1 + #[trigger] depth_change(block, 1, normal(), k)
                    >= 1
        }),
{
    lemma_block_span_balanced(raw);
    let (open, close) = block_span(raw)->Ok_0;
    let block = raw.subrange(open, close + 1);
    let first = step(raw, open, ScanState::initial());
    assert(first.next == normal() && first.width == 1 && first.token == Token::OpenBrace);
    assert(closing_brace(raw, open + 1, normal(), 1) == Some(close));
    lemma_closing_brace_reached(raw, open + 1, normal(), 1, close);
    lemma_closing_brace_balances(raw, open + 1, normal(), 1, close);
    assert(raw.subrange(open + 1, close) =~= block.subrange(1, close - open));
    assert(block[close - open] == CLOSE_BRACE);
    lemma_same_bytes_same_run(
        raw,
        open + 1,
        block,
        1,
        close - open - 1,
        normal(),
        normal(),
    );
    assert forall|k: int| 1 <= k <= close - open implies 1 + #[trigger] depth_change(
        block,
        1,
        normal(),
        k,
    ) >= 1 by {
        let j = k - 1;
        assert(depth_change(raw, open + 1, normal(), open + 1 + j) == depth_change(
            block,
            1,
            normal(),
            1 + j,
        ));
        assert(1 + depth_change(raw, open + 1, normal(), open + 1 + j) >= 1);
    }
    assert(depth_change(block, 1, normal(), close - open) == 0) by {
        let j = close - open - 1;
        assert(depth_change(raw, open + 1, normal(), open + 1 + j) == depth_change(
            block,
            1,
            normal(),
            1 + j,
        ));
    }
}

/// How the document after an insert is laid out around the offset up to
/// which the insert keeps the old document.
#[verifier::rlimit(80)]
proof fn lemma_inserted_layout(raw: Seq<u8>, inputs: Seq<InputView>)
    requires
        block_span(raw) is Ok,
        inputs.len() > 0,
    ensures
        ({
            let (open, close) = block_span(raw)->Ok_0;
            let keep = kept_until(raw, close);
            let out = insert_result(raw, inputs)->Ok_0;
            let tail = separator(raw.subrange(open + 1, close)) + line_ending(raw) + entry_lines(
                entry_indent(raw, open),
                line_ending(raw),
                pair_texts(template_pairs(inputs)),
            ) + base_indent(raw, open) + seq![CLOSE_BRACE];
            &&& insert_result(raw, inputs) is Ok
            &&& extends_kept(raw, out, open, keep, close)
            &&& keep + tail.len() <= out.len()
            &&& out.subrange(keep, keep + tail.len()) == tail
            &&& out.subrange(0, open + 1) == raw.subrange(0, open + 1)
        }),
{
    lemma_block_span_balanced(raw);
    lemma_insert_rewrites_blank_tail_only(raw, inputs);
    let (open, close) = block_span(raw)->Ok_0;
    let keep = kept_until(raw, close);
    let out = insert_result(raw, inputs)->Ok_0;
    let interior = raw.subrange(open + 1, close);
    let sep = separator(interior);
    let ending = line_ending(raw);
    let pairs = template_pairs(inputs);
    assert(pair_texts(pairs) =~= input_texts(inputs));
    let lines = entry_lines(entry_indent(raw, open), ending, pair_texts(pairs));
    let base = base_indent(raw, open);
    let tail = sep + ending + lines + base + seq![CLOSE_BRACE];
    assert(out == raw.subrange(0, keep) + sep + ending + lines + base + raw.subrange(
        close,
        raw.len() as int,
    ));
    assert(out.subrange(keep, keep + tail.len()) =~= tail);
    assert(out.subrange(0, open + 1) =~= raw.subrange(0, open + 1));
    assert(out[keep] == (sep + ending)[0]);
    assert forall|k: int| 0 <= k < keep implies raw[k] == out[k] by {
        assert(raw.subrange(0, keep)[k] == raw[k]);
    }
    if is_blank(interior) {
        lemma_blank_has_no_quote(interior);
        assert forall|k: int| open < k < keep implies raw[k] != QUOTE by {
            assert(interior[k - open - 1] == raw[k]);
        }
    }
}

/// What holds of two documents around the part that an insert keeps holds
/// of their blocks taken alone.
proof fn lemma_extends_kept_block(
    raw: Seq<u8>,
    out: Seq<u8>,
    open: int,
    keep: int,
    close: int,
    new_close: int,
)
    requires
        extends_kept(raw, out, open, keep, close),
        keep <= new_close < out.len(),
    ensures
        extends_kept(
            raw.subrange(open, close + 1),
            out.subrange(open, new_close + 1),
            0,
            keep - open,
            close - open,
        ),
{
    let old = raw.subrange(open, close + 1);
    let new = out.subrange(open, new_close + 1);
    assert forall|k: int| 0 <= k < keep - open implies old[k] == new[k] by {
        assert(raw[open + k] == out[open + k]);
    }
    assert forall|k: int| keep - open <= k < close - open implies is_blank_byte(
        #[trigger] old[k],
    ) by {
        assert(is_blank_byte(raw[open + k]));
    }
    if new[keep - open] != COMMA {
        assert forall|k: int| 0 < k < keep - open implies old[k] != QUOTE by {
            assert(raw[open + k] != QUOTE);
        }
    }
}

/// Where the scanner runs through a whole block, what it reports up to the
/// end of the block is all that it reports.
pub proof fn lemma_whole_block_entries(block: Seq<u8>)
    requires
        reaches(block, 0, ScanState::initial(), block.len() as int, normal()),
    ensures
        block_entries(block) == entries_between(
            block,
            0,
            ScanState::initial(),
            block.len() as int,
        ),
{
    lemma_entries_split(block, 0, ScanState::initial(), block.len() as int, normal());
    assert(entries_from(block, block.len() as int, normal()) == Seq::<EntryView>::empty());
    assert(block_entries(block) =~= entries_between(
        block,
        0,
        ScanState::initial(),
        block.len() as int,
    ));
}

/// The pairs that an insert writes: the local identifier of each input with
/// the value that the template makes of its gateway identifier.
pub open spec fn template_pairs(inputs: Seq<InputView>) -> Seq<(Seq<u8>, Seq<u8>)> {
    inputs.map_values(|input: InputView| (input.local_id, template_value(input.gw_id)))
}

/// The local identifier of every input is a string body, and so is the value
/// that the template makes of its gateway identifier.
pub open spec fn are_insertable(inputs: Seq<InputView>) -> bool {
    forall|i: int|
        0 <= i < inputs.len() ==> is_string_body((#[trigger] inputs[i]).local_id)
            && is_string_body(template_value(inputs[i].gw_id))
}

/// The pairs that an insert writes are string bodies if the inputs are.
proof fn lemma_template_pairs_are_bodies(inputs: Seq<InputView>)
    requires
        are_insertable(inputs),
    ensures
        are_string_bodies(template_pairs(inputs)),
{
    let pairs = template_pairs(inputs);
    assert forall|i: int| 0 <= i < pairs.len() implies is_string_body((#[trigger] pairs[i]).0)
        && is_string_body(pairs[i].1) by {
        assert(pairs[i] == (inputs[i].local_id, template_value(inputs[i].gw_id)));
    }
}

/// After an insert the block opens where it opened, and closes at the brace
/// that the insert wrote behind the new lines.
#[verifier::rlimit(80)]
pub proof fn lemma_inserted_block_span(raw: Seq<u8>, inputs: Seq<InputView>)
    requires
        block_span(raw) is Ok,
        inputs.len() > 0,
        are_insertable(inputs),
    ensures
        ({
            let (open, close) = block_span(raw)->Ok_0;
            let out = insert_result(raw, inputs)->Ok_0;
            let tail = separator(raw.subrange(open + 1, close)) + line_ending(raw) + entry_lines(
                entry_indent(raw, open),
                line_ending(raw),
                pair_texts(template_pairs(inputs)),
            ) + base_indent(raw, open) + seq![CLOSE_BRACE];
            block_span(out) == Ok::<(int, int), EditError>(
                (open, kept_until(raw, close) + tail.len() - 1),
            )
        }),
{
    lemma_block_run(raw);
    lemma_inserted_layout(raw, inputs);
    let (open, close) = block_span(raw)->Ok_0;
    let keep = kept_until(raw, close);
    let out = insert_result(raw, inputs)->Ok_0;
    let sep = separator(raw.subrange(open + 1, close));
    let ending = line_ending(raw);
    let indent = entry_indent(raw, open);
    let base = base_indent(raw, open);
    let pairs = template_pairs(inputs);
    let tail = sep + ending + entry_lines(indent, ending, pair_texts(pairs)) + base + seq![
        CLOSE_BRACE,
    ];
    lemma_indent_is_space(raw, open);
    lemma_space_is_plain(indent);
    lemma_space_is_plain(base);
    lemma_template_pairs_are_bodies(inputs);
    lemma_scan_inserted_block(raw, out, open, keep, close, sep, ending, indent, pairs, base);
    lemma_block_span_of_edit(raw, out, keep + tail.len() - 1);
}

/// After an insert the scanner reads from the new block, taken alone, the
/// entries of the old block followed by the entries that were written.
#[verifier::rlimit(80)]
pub proof fn lemma_inserted_block_entries(raw: Seq<u8>, inputs: Seq<InputView>)
    requires
        block_span(raw) is Ok,
        inputs.len() > 0,
        are_insertable(inputs),
    ensures
        ({
            let (open, close) = block_span(raw)->Ok_0;
            let out = insert_result(raw, inputs)->Ok_0;
            let tail = separator(raw.subrange(open + 1, close)) + line_ending(raw) + entry_lines(
                entry_indent(raw, open),
                line_ending(raw),
                pair_texts(template_pairs(inputs)),
            ) + base_indent(raw, open) + seq![CLOSE_BRACE];
            let new_close = kept_until(raw, close) + tail.len() - 1;
            &&& new_close < out.len()
            &&& block_entries(out.subrange(open, new_close + 1)) == block_entries(
                raw.subrange(open, close + 1),
            ) + written_entries(template_pairs(inputs))
        }),
{
    let (open, close) = block_span(raw)->Ok_0;
    let keep = kept_until(raw, close);
    let out = insert_result(raw, inputs)->Ok_0;
    let sep = separator(raw.subrange(open + 1, close));
    let ending = line_ending(raw);
    let indent = entry_indent(raw, open);
    let base = base_indent(raw, open);
    let pairs = template_pairs(inputs);
    let tail = sep + ending + entry_lines(indent, ending, pair_texts(pairs)) + base + seq![
        CLOSE_BRACE,
    ];
    let new_close = keep + tail.len() - 1;
    let old = raw.subrange(open, close + 1);
    let new = out.subrange(open, new_close + 1);
    assert(extends_kept(old, new, 0, keep - open, close - open) && new.subrange(
        keep - open,
        keep - open + tail.len(),
    ) == tail && new_close < out.len()) by {
        lemma_inserted_layout(raw, inputs);
        lemma_extends_kept_block(raw, out, open, keep, close, new_close);
        assert(new.subrange(keep - open, keep - open + tail.len()) =~= out.subrange(
            keep,
            keep + tail.len(),
        ));
    }
    assert(all_plain(indent) && all_plain(base)) by {
        lemma_block_span_balanced(raw);
        lemma_indent_is_space(raw, open);
        lemma_space_is_plain(indent);
        lemma_space_is_plain(base);
    }
    lemma_template_pairs_are_bodies(inputs);
    lemma_block_run(raw);
    lemma_scan_inserted_block(
        old,
        new,
        0,
        keep - open,
        close - open,
        sep,
        ending,
        indent,
        pairs,
        base,
    );
    lemma_whole_block_entries(old);
    lemma_whole_block_entries(new);
}

} // verus!
