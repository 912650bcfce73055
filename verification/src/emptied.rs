//! What a replacement by nothing leaves of a block: the text that it kept,
//! which a second replacement keeps again.

use crate::bytes::{
    contains, lemma_occurrence_bytes, lemma_occurs_inside, occurs_at, CARRIAGE_RETURN, CLOSE_BRACE,
    COMMA, NEWLINE, OPEN_BRACE,
};
use crate::entry::quoted_prefix;
use crate::kept::lemma_line_break;
use crate::laws::{lemma_replace_then_scan, written_interior};
use crate::layout::{base_indent, crlf, lemma_line_start_bounds, line_ending, line_start};
use crate::lines::{join_lines, lemma_join_split, split_lines};
use crate::locate::{
    block_span, closing_brace, depth_change, lemma_block_span_balanced,
    lemma_closing_brace_balances,
};
use crate::remarks::{
    is_one_line, is_prefixed_comment, lemma_comment_in_joined, lemma_comment_in_trimmed,
    lemma_entry_line_is_comment, lemma_line_stands,
};
use crate::replace::{
    closed_text, is_entry_line, is_other_line, kept_text, pair_texts, replace_result,
};
use crate::rescan::{
    is_balanced_text, is_line_ending, keeps_balanced_text, lemma_kept_text_has_no_prefix,
    lemma_quoted_prefix_bytes,
};
use crate::runs::{
    lemma_blank_stretch, lemma_closing_brace_here, lemma_closing_brace_reached,
    lemma_closing_brace_split, lemma_mode_before_blanks, lemma_reaches_chain, lemma_reaches_wf,
    lemma_same_bytes_same_run, lemma_stands_at, may_end_pair, normal, state_at,
};
use crate::scan::{step, ScanState, Token};
use crate::space::{
    is_blank_byte, is_space_byte, leading_space, lemma_leading_space_bytes, space_width_at,
    space_width_before, trailing_space, trim_end,
};
use vstd::prelude::*;

verus! {

/// From `from` to `to` stand whitespace characters and nothing else.
pub open spec fn is_space_run(s: Seq<u8>, from: int, to: int) -> bool
    decreases to - from,
{
    if from >= to {
        from == to
    } else {
        space_width_at(s, from) > 0 && from + space_width_at(s, from) <= to && is_space_run(
            s,
            from + space_width_at(s, from),
            to,
        )
    }
}

/// The whitespace characters that a text begins with are a run of
/// whitespace, behind which no whitespace character begins.
pub proof fn lemma_leading_is_run(s: Seq<u8>, at: int)
    requires
        0 <= at <= s.len(),
    ensures
        is_space_run(s, at, leading_space(s, at)),
        space_width_at(s, leading_space(s, at)) == 0,
        at <= leading_space(s, at) <= s.len(),
    decreases s.len() - at,
{
    if space_width_at(s, at) > 0 {
        lemma_leading_is_run(s, at + space_width_at(s, at));
    }
}

/// The width of a whitespace character is read off its own bytes.
pub proof fn lemma_same_width(a: Seq<u8>, pa: int, b: Seq<u8>, pb: int)
    requires
        0 <= pa,
        0 <= pb,
        space_width_at(a, pa) > 0,
        pb + space_width_at(a, pa) <= b.len(),
        a.subrange(pa, pa + space_width_at(a, pa)) == b.subrange(
            pb,
            pb + space_width_at(a, pa),
        ),
    ensures
        space_width_at(b, pb) == space_width_at(a, pa),
{
    let w = space_width_at(a, pa);
    let same = a.subrange(pa, pa + w);
    assert(same[0] == a[pa] && same[0] == b[pb]);
    if w >= 2 {
        assert(same[1] == a[pa + 1] && same[1] == b[pb + 1]);
    }
    if w >= 3 {
        assert(same[2] == a[pa + 2] && same[2] == b[pb + 2]);
    }
}

/// A run of whitespace is one wherever its bytes stand.
pub proof fn lemma_run_moves(a: Seq<u8>, pa: int, b: Seq<u8>, pb: int, len: int, from: int)
    requires
        0 <= pa,
        0 <= pb,
        0 <= from <= len,
        pa + len <= a.len(),
        pb + len <= b.len(),
        a.subrange(pa, pa + len) == b.subrange(pb, pb + len),
        is_space_run(a, pa + from, pa + len),
    ensures
        is_space_run(b, pb + from, pb + len),
    decreases len - from,
{
    if from < len {
        let w = space_width_at(a, pa + from);
        assert(a.subrange(pa + from, pa + from + w) =~= a.subrange(pa, pa + len).subrange(
            from,
            from + w,
        ));
        assert(b.subrange(pb + from, pb + from + w) =~= b.subrange(pb, pb + len).subrange(
            from,
            from + w,
        ));
        lemma_same_width(a, pa + from, b, pb + from);
        lemma_run_moves(a, pa, b, pb, len, from + w);
    }
}

/// Leading whitespace is skipped through every run of whitespace.
pub proof fn lemma_run_is_skipped(s: Seq<u8>, from: int, to: int)
    requires
        is_space_run(s, from, to),
    ensures
        leading_space(s, from) == leading_space(s, to),
    decreases to - from,
{
    if from < to {
        lemma_run_is_skipped(s, from + space_width_at(s, from), to);
    }
}

/// A whitespace character is found from its end as it is found from its
/// start.
pub proof fn lemma_width_before(s: Seq<u8>, lo: int, at: int)
    requires
        0 <= lo <= at,
        space_width_at(s, at) > 0,
    ensures
        space_width_before(s, lo, at + space_width_at(s, at)) == space_width_at(s, at),
{
}

/// Trailing whitespace is skipped through every run of whitespace.
pub proof fn lemma_run_is_skipped_back(s: Seq<u8>, lo: int, from: int, to: int)
    requires
        0 <= lo <= from,
        is_space_run(s, from, to),
    ensures
        trailing_space(s, lo, to) == trailing_space(s, lo, from),
    decreases to - from,
{
    if from < to {
        let w = space_width_at(s, from);
        lemma_run_is_skipped_back(s, lo, from + w, to);
        lemma_width_before(s, lo, from);
    }
}

/// Two runs of whitespace, one behind the other, are a run of whitespace.
pub proof fn lemma_runs_join(s: Seq<u8>, from: int, mid: int, to: int)
    requires
        is_space_run(s, from, mid),
        is_space_run(s, mid, to),
    ensures
        is_space_run(s, from, to),
    decreases mid - from,
{
    if from < mid {
        lemma_run_bounds(s, mid, to);
        lemma_runs_join(s, from + space_width_at(s, from), mid, to);
    }
}

/// A run of whitespace ends at or behind its start.
pub proof fn lemma_run_bounds(s: Seq<u8>, from: int, to: int)
    requires
        is_space_run(s, from, to),
    ensures
        from <= to,
    decreases to - from,
{
}

/// A line ending is a run of whitespace.
pub proof fn lemma_ending_is_run(ending: Seq<u8>)
    requires
        is_line_ending(ending),
    ensures
        is_space_run(ending, 0, ending.len() as int),
        ending.len() > 0,
        ending[0] < 0x80,
{
    if ending == seq![NEWLINE] {
        assert(space_width_at(ending, 0) == 1);
        assert(is_space_run(ending, 1, 1));
    } else {
        assert(ending == crlf());
        assert(space_width_at(ending, 0) == 1);
        assert(space_width_at(ending, 1) == 1);
        assert(is_space_run(ending, 2, 2));
        assert(is_space_run(ending, 1, 2));
    }
}

/// Trimming the end takes a run of whitespace off the end of a text that
/// does not end with a space byte.
pub proof fn lemma_trim_end_of_padded(core: Seq<u8>, pad: Seq<u8>)
    requires
        core.len() == 0 || !is_space_byte(core.last()),
        is_space_run(pad, 0, pad.len() as int),
    ensures
        trim_end(core + pad) == core,
{
    let text = core + pad;
    let cut = core.len() as int;
    assert(text.subrange(cut, cut + pad.len()) =~= pad.subrange(0, pad.len() as int));
    lemma_run_moves(pad, 0, text, cut, pad.len() as int, 0);
    lemma_run_is_skipped_back(text, 0, cut, text.len() as int);
    if cut > 0 {
        assert(text[cut - 1] == core.last());
    }
    assert(space_width_before(text, 0, cut) == 0);
    assert(trim_end(text) =~= core);
}

/// Filtering keeps a list as it is if every element passes.
pub proof fn lemma_filter_keeps_all(lines: Seq<Seq<u8>>, test: spec_fn(Seq<u8>) -> bool)
    requires
        forall|i: int| 0 <= i < lines.len() ==> test(#[trigger] lines[i]),
    ensures
        lines.filter(test) == lines,
    decreases lines.len(),
{
    reveal(Seq::filter);
    if lines.len() > 0 {
        lemma_filter_keeps_all(lines.drop_last(), test);
        assert(lines.drop_last().push(lines.last()) =~= lines);
    }
}

/// A replacement keeps a text whole, but for the whitespace at its end, if
/// none of its lines holds a prefixed key.
pub proof fn lemma_kept_text_without_entry_lines(text: Seq<u8>)
    requires
        forall|i: int|
            0 <= i < split_lines(text).len() ==> !is_entry_line(#[trigger] split_lines(text)[i]),
    ensures
        kept_text(text) == trim_end(text),
{
    let lines = split_lines(text);
    assert forall|i: int| 0 <= i < lines.len() implies is_other_line()(#[trigger] lines[i]) by {
        assert(!is_entry_line(split_lines(text)[i]));
    }
    lemma_filter_keeps_all(lines, is_other_line());
    lemma_join_split(text);
}

/// Every line that a replacement keeps holds no line feed.
pub proof fn lemma_kept_lines_are_lines(interior: Seq<u8>, i: int)
    requires
        0 <= i < split_lines(interior).filter(is_other_line()).len(),
    ensures
        is_one_line(split_lines(interior).filter(is_other_line())[i]),
        !is_entry_line(split_lines(interior).filter(is_other_line())[i]),
{
    let all = split_lines(interior);
    let kept = all.filter(is_other_line());
    all.lemma_filter_pred(is_other_line(), i);
    assert(kept.contains(kept[i]));
    all.lemma_filter_contains_rev(is_other_line(), kept[i]);
    let j = choose|j: int| 0 <= j < all.len() && all[j] == kept[i];
    lemma_line_stands(interior, j);
    let (from, to) = choose|from: int, to: int|
        0 <= from <= to <= interior.len() && (from == 0 || interior[from - 1] == NEWLINE) && (
        forall|k: int| from <= k < to ==> interior[k] != NEWLINE) && split_lines(interior)[j]
            == #[trigger] interior.subrange(from, to);
    assert forall|k: int| 0 <= k < kept[i].len() implies kept[i][k] != NEWLINE by {
        assert(kept[i][k] == interior[from + k]);
    }
}

/// What a replacement keeps of a block, closed and followed by whitespace,
/// has no line that holds a prefixed key.
pub proof fn lemma_closed_text_has_no_entry_lines(interior: Seq<u8>, rest: Seq<u8>, i: int)
    requires
        forall|k: int| 0 <= k < rest.len() ==> rest[k] == COMMA || is_space_byte(#[trigger] rest[k]),
        0 <= i < split_lines(kept_text(interior) + rest).len(),
    ensures
        !is_entry_line(split_lines(kept_text(interior) + rest)[i]),
{
    let kept = kept_text(interior);
    let text = kept + rest;
    let lines = split_lines(interior).filter(is_other_line());
    let joined = join_lines(lines);
    if is_entry_line(split_lines(text)[i]) {
        lemma_quoted_prefix_bytes();
        lemma_kept_text_has_no_prefix(interior);
        assert(!contains(text, quoted_prefix())) by {
            if contains(text, quoted_prefix()) {
                let at = choose|at: int| occurs_at(text, quoted_prefix(), at);
                if at + 13 <= kept.len() {
                    lemma_occurs_inside(text, 0, kept.len() as int, quoted_prefix(), at);
                    assert(text.subrange(0, kept.len() as int) =~= kept);
                } else {
                    lemma_occurrence_bytes(text, quoted_prefix(), at, 12);
                    assert(text[at + 12] == rest[at + 12 - kept.len()]);
                }
            }
        }
        lemma_entry_line_is_comment(text, i);
        let (line, mark, at) = choose|line: int, mark: int, at: int|
            is_prefixed_comment(text, line, mark, at);
        assert(text.subrange(0, kept.len() as int) =~= kept);
        assert forall|k: int| kept.len() <= k < text.len() implies text[k] == COMMA
            || is_space_byte(#[trigger] text[k]) by {
            assert(text[k] == rest[k - kept.len()]);
        }
        lemma_comment_in_trimmed(joined, text, line, mark, at);
        let (first, slashes, prefix) = (line, mark, at);
        assert forall|n: int| 0 <= n < lines.len() implies is_one_line(#[trigger] lines[n]) by {
            lemma_kept_lines_are_lines(interior, n);
        }
        lemma_comment_in_joined(lines, first, slashes, prefix);
        let n = choose|n: int| 0 <= n < lines.len() && is_entry_line(#[trigger] lines[n]);
        lemma_kept_lines_are_lines(interior, n);
    }
}

/// Whether a text is balanced does not hang on the line ending it ends
/// with.
#[verifier::rlimit(80)]
pub proof fn lemma_balanced_with_any_ending(text: Seq<u8>, ending: Seq<u8>, other: Seq<u8>)
    requires
        is_balanced_text(text + ending),
        is_line_ending(ending),
        is_line_ending(other),
    ensures
        is_balanced_text(text + other),
{
    let old = seq![OPEN_BRACE] + (text + ending) + seq![CLOSE_BRACE];
    let new = seq![OPEN_BRACE] + (text + other) + seq![CLOSE_BRACE];
    let at: int = text.len() as int + 1;
    let old_close: int = at + ending.len();
    let new_close: int = at + other.len();
    let first = step(old, 0, ScanState::initial());
    assert(first.next == normal() && first.width == 1 && first.token == Token::OpenBrace);
    assert(closing_brace(old, 1, normal(), 1) == Some(old_close));
    lemma_closing_brace_reached(old, 1, normal(), 1, old_close);
    lemma_closing_brace_balances(old, 1, normal(), 1, old_close);
    assert forall|k: int| at <= k < old_close implies is_blank_byte(#[trigger] old[k]) by {
        assert(old[k] == ending[k - at]);
    }
    assert(!may_end_pair(old[at]));
    let here = state_at(old, 1, normal(), at);
    lemma_stands_at(old, 1, normal(), at, old_close, normal());
    lemma_reaches_wf(old, 1, normal(), at, here);
    lemma_mode_before_blanks(old, at, here, old_close);
    lemma_reaches_chain(old, 1, normal(), at, here, old_close, normal());
    lemma_blank_stretch(old, at, here, old_close);
    assert(depth_change(old, 1, normal(), at) == 0) by {
        assert(depth_change(old, 1, normal(), old_close) == depth_change(old, 1, normal(), at)
            + depth_change(old, at, here, old_close));
    }
    assert(old.subrange(1, at) =~= new.subrange(1, at));
    assert(new[at] == other[0]);
    assert(!may_end_pair(new[at]));
    lemma_same_bytes_same_run(old, 1, new, 1, at - 1, normal(), here);
    assert forall|k: int| at <= k < new_close - 1 implies #[trigger] new[k] == COMMA || new[k]
        == CARRIAGE_RETURN by {
        assert(new[k] == other[k - at]);
    }
    assert(new[new_close - 1] == NEWLINE) by {
        assert(new[new_close - 1] == other[other.len() - 1]);
    }
    lemma_line_break(new, at, here, new_close);
    lemma_reaches_chain(new, 1, normal(), at, here, new_close, normal());
    assert forall|k: int| 1 <= k <= new_close implies 1 + #[trigger] depth_change(
        new,
        1,
        normal(),
        k,
    ) >= 1 by {
        if k <= at {
            let j = k - 1;
            assert(depth_change(old, 1, normal(), 1 + j) == depth_change(
                new,
                1,
                normal(),
                1 + j,
            ));
            assert(1 + depth_change(old, 1, normal(), k) >= 1);
        } else {
            let j = at - 1;
            assert(depth_change(old, 1, normal(), 1 + j) == depth_change(
                new,
                1,
                normal(),
                1 + j,
            ));
            assert(depth_change(new, at, here, k) == 0);
        }
    }
    assert(depth_change(new, 1, normal(), new_close) == 0) by {
        let j = at - 1;
        assert(depth_change(old, 1, normal(), 1 + j) == depth_change(
            new,
            1,
            normal(),
            1 + j,
        ));
        assert(depth_change(new, at, here, new_close) == 0);
    }
    lemma_closing_brace_split(new, 1, normal(), 1, new_close, normal());
    lemma_closing_brace_here(new, new_close);
    let again = step(new, 0, ScanState::initial());
    assert(again.next == normal() && again.width == 1 && again.token == Token::OpenBrace);
    assert(closing_brace(new, 0, ScanState::initial(), 0) == closing_brace(new, 1, normal(), 1));
}

/// The base indentation of a block is a run of whitespace.
pub proof fn lemma_base_indent_is_run(raw: Seq<u8>, open: int)
    requires
        0 <= open <= raw.len(),
    ensures
        is_space_run(base_indent(raw, open), 0, base_indent(raw, open).len() as int),
{
    lemma_line_start_bounds(raw, open);
    let line = raw.subrange(line_start(raw, open), open);
    let base = base_indent(raw, open);
    lemma_leading_is_run(line, 0);
    lemma_leading_space_bytes(line, 0);
    assert(line.subrange(0, base.len() as int) =~= base.subrange(0, base.len() as int));
    lemma_run_moves(line, 0, base, 0, base.len() as int, 0);
}

/// A line ending in front of a run of whitespace is a run of whitespace.
pub proof fn lemma_pad_is_run(ending: Seq<u8>, base: Seq<u8>)
    requires
        is_line_ending(ending),
        is_space_run(base, 0, base.len() as int),
    ensures
        is_space_run(ending + base, 0, (ending + base).len() as int),
        (ending + base)[0] < 0x80,
{
    let pad = ending + base;
    let cut = ending.len() as int;
    lemma_ending_is_run(ending);
    assert(ending.subrange(0, cut) =~= pad.subrange(0, cut));
    lemma_run_moves(ending, 0, pad, 0, cut, 0);
    assert(base.subrange(0, base.len() as int) =~= pad.subrange(cut, cut + base.len()));
    lemma_run_moves(base, 0, pad, cut, base.len() as int, 0);
    lemma_runs_join(pad, 0, cut, pad.len() as int);
}

/// What a replacement by nothing leaves of a block, a second replacement
/// keeps: if the text that the first keeps is balanced, the text that the
/// second keeps is balanced too.
#[verifier::rlimit(80)]
pub proof fn lemma_emptied_keeps_balanced(raw: Seq<u8>)
    requires
        keeps_balanced_text(raw),
    ensures
        replace_result(raw, Seq::empty()) is Ok,
        keeps_balanced_text(replace_result(raw, Seq::empty())->Ok_0),
{
    lemma_block_span_balanced(raw);
    let (open, close) = block_span(raw)->Ok_0;
    let none = Seq::<(Seq<u8>, Seq<u8>)>::empty();
    lemma_replace_then_scan(raw, none);
    let emptied = replace_result(raw, none)->Ok_0;
    let kept = kept_text(raw.subrange(open + 1, close));
    let ending = line_ending(raw);
    let closed = closed_text(kept, ending);
    let base = base_indent(raw, open);
    let other = line_ending(emptied);
    assert(pair_texts(none) =~= Seq::<Seq<u8>>::empty());
    assert(written_interior(raw, none) =~= closed + base);
    let interior = emptied.subrange(open + 1, open + 1 + (closed + base).len());
    assert(emptied == raw.subrange(0, open + 1) + closed + Seq::<u8>::empty() + base
        + raw.subrange(close, raw.len() as int));
    assert(interior =~= closed + base);
    lemma_base_indent_is_run(raw, open);
    let comma: Seq<u8> = if kept.len() == 0 || kept.last() == COMMA {
        seq![]
    } else {
        seq![COMMA]
    };
    let core = kept + comma;
    let pad = ending + base;
    let rest = comma + pad;
    assert(closed =~= core + ending);
    assert(interior =~= core + pad);
    assert(core + pad =~= kept + rest);
    lemma_pad_is_run(ending, base);
    lemma_trim_end_of_padded(core, pad);
    assert forall|k: int| 0 <= k < rest.len() implies rest[k] == COMMA || is_space_byte(
        #[trigger] rest[k],
    ) by {
        if k >= comma.len() + ending.len() {
            assert(rest[k] == base[k - comma.len() - ending.len()]);
            lemma_line_start_bounds(raw, open);
            lemma_leading_space_bytes(raw.subrange(line_start(raw, open), open), 0);
            assert(is_space_byte(base[k - comma.len() - ending.len()]));
        } else if k >= comma.len() {
            assert(rest[k] == ending[k - comma.len()]);
        }
    }
    assert forall|i: int| 0 <= i < split_lines(core + pad).len() implies !is_entry_line(
        #[trigger] split_lines(core + pad)[i],
    ) by {
        lemma_closed_text_has_no_entry_lines(raw.subrange(open + 1, close), rest, i);
    }
    lemma_kept_text_without_entry_lines(core + pad);
    assert(kept_text(interior) == core);
    assert(closed_text(core, other) =~= core + other);
    lemma_balanced_with_any_ending(core, ending, other);
}

} // verus!
