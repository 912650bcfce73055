//! Blocks whose lines hold one entry each: the rows that they are made of
//! before and after a delete.

use crate::bytes::{occurs_at, starts_with, CLOSE_BRACE, COMMA, NEWLINE, OPEN_BRACE};
use crate::cleaned::{lemma_comma_run_end, lemma_comma_run_start};
use crate::entry::{document_entries, portal_prefix, quoted_prefix, EntryView};
use crate::error::EditError;
use crate::kept::lemma_whole_block_entries;
use crate::layout::{base_indent, entry_text, line_ending};
use crate::lines::{join_lines, lemma_join_split, split_lines};
use crate::locate::{block_span, lemma_block_span_balanced, lemma_block_span_of_edit};
use crate::quoted::is_string_body;
use crate::remove::{
    cleaned_line, is_unrelated, line_core, mentions, rebuilt_interior, rebuilt_upto,
    remaining_lines, remove_result, without_blank_tail,
};
use crate::replace::{closed_text, is_entry_line, is_other_line, kept_text};
use crate::rescan::{
    all_plain, is_line_ending, keeps_balanced_text, lemma_entry_text_parts, lemma_indent_is_space,
    lemma_quoted_prefix_bytes, lemma_space_is_plain,
};
use crate::rows::{are_rows, held_entries, is_row, lemma_scan_row_block, row_parts, rows_text};
use crate::runs::is_plain;
use crate::space::{
    comma_run_start, indent_of, is_blank, is_space_byte, leading_space, lemma_leading_space_bytes,
    lemma_trailing_space_bytes, strip_trailing_commas, trailing_space, trim,
};
use vstd::prelude::*;

verus! {

/// The line holds what `held` says: nothing, or one entry, whose text is
/// all that stands on the line but indentation, commas and whitespace. The
/// parts of the entry are string bodies, and its value does not begin with
/// the entry prefix.
pub open spec fn line_holds(line: Seq<u8>, held: Option<(Seq<u8>, Seq<u8>)>) -> bool {
    match held {
        None => is_blank(line),
        Some((local_id, value)) => {
            &&& !is_blank(line)
            &&& line_core(line) == entry_text(local_id, value)
            &&& is_string_body(local_id)
            &&& is_string_body(value)
            &&& !starts_with(value, portal_prefix())
        },
    }
}

/// Every line holds what `held` says of it.
pub open spec fn lines_hold(lines: Seq<Seq<u8>>, held: Seq<Option<(Seq<u8>, Seq<u8>)>>) -> bool {
    &&& lines.len() == held.len()
    &&& forall|i: int| 0 <= i < lines.len() ==> line_holds(#[trigger] lines[i], held[i])
}

/// What is held by the lines that do not mention the local identifier, in
/// order.
pub open spec fn unmentioned_held(
    lines: Seq<Seq<u8>>,
    held: Seq<Option<(Seq<u8>, Seq<u8>)>>,
    local_id: Seq<u8>,
) -> Seq<Option<(Seq<u8>, Seq<u8>)>>
    decreases lines.len(),
{
    if lines.len() == 0 {
        seq![]
    } else if mentions(lines.last(), local_id) {
        unmentioned_held(lines.drop_last(), held.drop_last(), local_id)
    } else {
        unmentioned_held(lines.drop_last(), held.drop_last(), local_id).push(held.last())
    }
}

/// A blank line is made of plain bytes.
pub proof fn lemma_blank_is_plain(line: Seq<u8>)
    requires
        is_blank(line),
    ensures
        all_plain(line),
{
    let from = leading_space(line, 0);
    lemma_leading_space_bytes(line, 0);
    lemma_trailing_space_bytes(line, from, line.len() as int);
    assert forall|k: int| 0 <= k < line.len() implies is_plain(#[trigger] line[k]) by {
        assert(is_space_byte(line[k]));
    }
}

/// What stands on a line behind its text.
pub open spec fn line_rest(line: Seq<u8>) -> Seq<u8> {
    line.subrange((indent_of(line).len() + line_core(line).len()) as int, line.len() as int)
}

/// A line is its indentation, its text, and commas and whitespace behind
/// the text.
pub proof fn lemma_line_parts(line: Seq<u8>)
    ensures
        indent_of(line).len() + line_core(line).len() <= line.len(),
        line == indent_of(line) + line_core(line) + line_rest(line),
        all_plain(indent_of(line)),
        all_plain(line_rest(line)),
{
    let from = leading_space(line, 0);
    lemma_leading_space_bytes(line, 0);
    let to = trailing_space(line, from, line.len() as int);
    lemma_trailing_space_bytes(line, from, line.len() as int);
    let text = trim(line);
    let cut = comma_run_start(text, text.len() as int);
    lemma_comma_run_start(text, text.len() as int);
    lemma_comma_run_end(text, text.len() as int);
    let stripped = strip_trailing_commas(text);
    let end = trailing_space(stripped, 0, stripped.len() as int);
    lemma_trailing_space_bytes(stripped, 0, stripped.len() as int);
    let core = line_core(line);
    let indent = indent_of(line);
    let rest = line_rest(line);
    assert(rest =~= line.subrange(from + end, line.len() as int));
    assert(line =~= indent + core + rest);
    assert forall|k: int| 0 <= k < indent.len() implies is_plain(#[trigger] indent[k]) by {
        assert(is_space_byte(line[k]));
    }
    assert forall|k: int| 0 <= k < rest.len() implies is_plain(#[trigger] rest[k]) by {
        let at = from + end + k;
        assert(rest[k] == line[at]);
        if at < from + cut {
            assert(stripped[at - from] == line[at]);
            assert(is_space_byte(stripped[at - from]));
        } else if at < to {
            assert(text[at - from] == line[at]);
            assert(text[at - from] == COMMA);
        } else {
            assert(is_space_byte(line[at]));
        }
    }
}

/// The rows of a text, made of its lines: the first line, and every
/// further line with the line feed in front of it.
pub open spec fn line_rows(lines: Seq<Seq<u8>>) -> Seq<Seq<u8>> {
    Seq::new(
        lines.len(),
        |i: int|
            if i == 0 {
                lines[0]
            } else {
                seq![NEWLINE] + lines[i]
            },
    )
}

/// The rows of a rebuilt interior: every remaining line, cleaned, with the
/// line ending behind it.
pub open spec fn cleaned_rows(lines: Seq<Seq<u8>>, ending: Seq<u8>) -> Seq<Seq<u8>> {
    Seq::new(lines.len(), |i: int| cleaned_line(lines[i], i + 1 == lines.len()) + ending)
}

/// The rows of a text, one behind the other, are the text.
pub proof fn lemma_line_rows_text(lines: Seq<Seq<u8>>, count: int)
    requires
        1 <= count <= lines.len(),
    ensures
        rows_text(line_rows(lines), count) == join_lines(lines.subrange(0, count)),
    decreases count,
{
    let rows = line_rows(lines);
    let part = lines.subrange(0, count);
    if count == 1 {
        assert(rows_text(rows, 0) =~= Seq::<u8>::empty());
        assert(rows_text(rows, 1) =~= lines[0]);
    } else {
        lemma_line_rows_text(lines, count - 1);
        assert(part.drop_last() =~= lines.subrange(0, count - 1));
        assert(rows_text(rows, count) =~= join_lines(part.drop_last()) + seq![NEWLINE]
            + part.last());
    }
}

/// The rows of a rebuilt interior, one behind the other, are the rebuilt
/// interior.
pub proof fn lemma_cleaned_rows_text(lines: Seq<Seq<u8>>, ending: Seq<u8>, count: int)
    requires
        0 <= count <= lines.len(),
    ensures
        rows_text(cleaned_rows(lines, ending), count) == rebuilt_upto(lines, ending, count),
    decreases count,
{
    if count > 0 {
        lemma_cleaned_rows_text(lines, ending, count - 1);
        assert(rows_text(cleaned_rows(lines, ending), count) =~= rebuilt_upto(
            lines,
            ending,
            count,
        ));
    }
}

/// The rows of a text whose lines hold entries are rows that hold these
/// entries.
pub proof fn lemma_line_rows_hold(lines: Seq<Seq<u8>>, held: Seq<Option<(Seq<u8>, Seq<u8>)>>)
    requires
        lines_hold(lines, held),
    ensures
        are_rows(line_rows(lines), held),
{
    let rows = line_rows(lines);
    assert forall|i: int| 0 <= i < rows.len() implies is_row(#[trigger] rows[i], held[i]) by {
        let line = lines[i];
        let front: Seq<u8> = if i == 0 {
            seq![]
        } else {
            seq![NEWLINE]
        };
        assert(rows[i] =~= front + line);
        assert(line_holds(line, held[i]));
        match held[i] {
            None => {
                lemma_blank_is_plain(line);
                assert forall|k: int| 0 <= k < rows[i].len() implies is_plain(
                    #[trigger] rows[i][k],
                ) by {
                    if k >= front.len() {
                        assert(rows[i][k] == line[k - front.len()]);
                    }
                }
            },
            Some((local_id, value)) => {
                lemma_line_parts(line);
                let pre = front + indent_of(line);
                let post = line_rest(line);
                assert forall|k: int| 0 <= k < pre.len() implies is_plain(#[trigger] pre[k]) by {
                    if k >= front.len() {
                        assert(pre[k] == indent_of(line)[k - front.len()]);
                    }
                }
                assert(row_parts(pre, entry_text(local_id, value), post) =~= rows[i]);
            },
        }
    }
}

/// The rows of a rebuilt interior whose lines hold entries are rows that
/// hold these entries.
pub proof fn lemma_cleaned_rows_hold(
    lines: Seq<Seq<u8>>,
    held: Seq<Option<(Seq<u8>, Seq<u8>)>>,
    ending: Seq<u8>,
)
    requires
        lines_hold(lines, held),
        is_line_ending(ending),
    ensures
        are_rows(cleaned_rows(lines, ending), held),
{
    let rows = cleaned_rows(lines, ending);
    assert forall|k: int| 0 <= k < ending.len() implies is_plain(#[trigger] ending[k]) by {}
    assert forall|i: int| 0 <= i < rows.len() implies is_row(#[trigger] rows[i], held[i]) by {
        let line = lines[i];
        let last = i + 1 == lines.len();
        assert(rows[i] == cleaned_line(line, last) + ending);
        assert(line_holds(line, held[i]));
        match held[i] {
            None => {
                assert(rows[i] =~= ending);
            },
            Some((local_id, value)) => {
                lemma_line_parts(line);
                let comma: Seq<u8> = if last {
                    seq![]
                } else {
                    seq![COMMA]
                };
                let post = comma + ending;
                assert forall|k: int| 0 <= k < post.len() implies is_plain(#[trigger] post[k]) by {
                    if k >= comma.len() {
                        assert(post[k] == ending[k - comma.len()]);
                    }
                }
                assert(row_parts(indent_of(line), entry_text(local_id, value), post) =~= rows[i]);
            },
        }
    }
}

/// The lines that do not mention the local identifier hold what
/// `unmentioned_held` says.
pub proof fn lemma_unmentioned_hold(
    lines: Seq<Seq<u8>>,
    held: Seq<Option<(Seq<u8>, Seq<u8>)>>,
    local_id: Seq<u8>,
)
    requires
        lines_hold(lines, held),
    ensures
        lines_hold(lines.filter(is_unrelated(local_id)), unmentioned_held(lines, held, local_id)),
    decreases lines.len(),
{
    reveal(Seq::filter);
    if lines.len() > 0 {
        let front = lines.drop_last();
        let front_held = held.drop_last();
        assert forall|i: int| 0 <= i < front.len() implies line_holds(
            #[trigger] front[i],
            front_held[i],
        ) by {
            assert(line_holds(lines[i], held[i]));
        }
        lemma_unmentioned_hold(front, front_held, local_id);
        let kept = lines.filter(is_unrelated(local_id));
        let kept_held = unmentioned_held(lines, held, local_id);
        let sub = front.filter(is_unrelated(local_id));
        let sub_held = unmentioned_held(front, front_held, local_id);
        assert(line_holds(lines[lines.len() - 1], held[lines.len() - 1]));
        if !mentions(lines.last(), local_id) {
            assert(kept == sub.push(lines.last()));
            assert forall|i: int| 0 <= i < kept.len() implies line_holds(
                #[trigger] kept[i],
                kept_held[i],
            ) by {
                if i < sub.len() {
                    assert(line_holds(sub[i], sub_held[i]));
                }
            }
        } else {
            assert(kept == sub);
        }
    }
}

/// The entries of the first rows hang on what the first rows hold only.
pub proof fn lemma_held_entries_same(
    a: Seq<Option<(Seq<u8>, Seq<u8>)>>,
    b: Seq<Option<(Seq<u8>, Seq<u8>)>>,
    count: int,
)
    requires
        0 <= count <= a.len(),
        count <= b.len(),
        forall|i: int| 0 <= i < count ==> a[i] == b[i],
    ensures
        held_entries(a, count) == held_entries(b, count),
    decreases count,
{
    if count > 0 {
        lemma_held_entries_same(a, b, count - 1);
    }
}

/// The blank lines at the end of a list of lines hold no entry: without
/// them the lines are the first of the lines and hold the same entries.
pub proof fn lemma_blank_tail_holds_nothing(
    lines: Seq<Seq<u8>>,
    held: Seq<Option<(Seq<u8>, Seq<u8>)>>,
)
    requires
        lines_hold(lines, held),
    ensures
        without_blank_tail(lines).len() <= lines.len(),
        without_blank_tail(lines) == lines.subrange(0, without_blank_tail(lines).len() as int),
        held_entries(held, held.len() as int) == held_entries(
            held,
            without_blank_tail(lines).len() as int,
        ),
    decreases lines.len(),
{
    if lines.len() > 0 && is_blank(lines.last()) {
        let front = lines.drop_last();
        let front_held = held.drop_last();
        assert forall|i: int| 0 <= i < front.len() implies line_holds(
            #[trigger] front[i],
            front_held[i],
        ) by {
            assert(line_holds(lines[i], held[i]));
        }
        lemma_blank_tail_holds_nothing(front, front_held);
        let rest = without_blank_tail(lines).len() as int;
        assert(without_blank_tail(lines) =~= lines.subrange(0, rest));
        assert(line_holds(lines[lines.len() - 1], held[lines.len() - 1]));
        assert(held[held.len() - 1] is None);
        lemma_held_entries_same(front_held, held, front_held.len() as int);
        lemma_held_entries_same(front_held, held, rest);
        assert(held_entries(held, held.len() as int) =~= held_entries(held, held.len() - 1));
    } else {
        assert(lines.subrange(0, lines.len() as int) =~= lines);
    }
}

/// A block whose lines hold one entry each is read as these entries, in the
/// order of the lines.
#[verifier::rlimit(80)]
pub proof fn lemma_lined_block_entries(raw: Seq<u8>, held: Seq<Option<(Seq<u8>, Seq<u8>)>>)
    requires
        block_span(raw) is Ok,
        lines_hold(
            split_lines(raw.subrange(block_span(raw)->Ok_0.0 + 1, block_span(raw)->Ok_0.1)),
            held,
        ),
    ensures
        document_entries(raw) == Ok::<Seq<EntryView>, EditError>(
            held_entries(held, held.len() as int),
        ),
{
    lemma_block_span_balanced(raw);
    let (open, close) = block_span(raw)->Ok_0;
    let block = raw.subrange(open, close + 1);
    let interior = raw.subrange(open + 1, close);
    let lines = split_lines(interior);
    let rows = line_rows(lines);
    let count = lines.len() as int;
    lemma_join_split(interior);
    lemma_line_rows_text(lines, count);
    assert(lines.subrange(0, count) =~= lines);
    lemma_line_rows_hold(lines, held);
    let empty = Seq::<u8>::empty();
    assert(block =~= seq![OPEN_BRACE] + rows_text(rows, rows.len() as int) + empty + seq![
        CLOSE_BRACE,
    ]);
    assert(block.subrange(0, block.len() as int) =~= block);
    lemma_scan_row_block(block, 0, rows, held, empty);
    lemma_whole_block_entries(block);
}

/// After a delete in a block whose lines hold one entry each, the block
/// opens where it opened, and the scanner reads the entries of the lines
/// that do not mention the local identifier, in the order of the lines.
#[verifier::rlimit(80)]
pub proof fn lemma_lined_block_after_remove(
    raw: Seq<u8>,
    local_id: Seq<u8>,
    held: Seq<Option<(Seq<u8>, Seq<u8>)>>,
)
    requires
        remove_result(raw, local_id) is Ok,
        lines_hold(
            split_lines(raw.subrange(block_span(raw)->Ok_0.0 + 1, block_span(raw)->Ok_0.1)),
            held,
        ),
    ensures
        block_span(remove_result(raw, local_id)->Ok_0) is Ok,
        block_span(remove_result(raw, local_id)->Ok_0)->Ok_0.0 == block_span(raw)->Ok_0.0,
        document_entries(remove_result(raw, local_id)->Ok_0) == Ok::<Seq<EntryView>, EditError>(
            held_entries(
                unmentioned_held(
                    split_lines(
                        raw.subrange(block_span(raw)->Ok_0.0 + 1, block_span(raw)->Ok_0.1),
                    ),
                    held,
                    local_id,
                ),
                unmentioned_held(
                    split_lines(
                        raw.subrange(block_span(raw)->Ok_0.0 + 1, block_span(raw)->Ok_0.1),
                    ),
                    held,
                    local_id,
                ).len() as int,
            ),
        ),
{
    lemma_block_span_balanced(raw);
    let (open, close) = block_span(raw)->Ok_0;
    let interior = raw.subrange(open + 1, close);
    let lines = split_lines(interior);
    let kept = lines.filter(is_unrelated(local_id));
    let kept_held = unmentioned_held(lines, held, local_id);
    lemma_unmentioned_hold(lines, held, local_id);
    lemma_blank_tail_holds_nothing(kept, kept_held);
    let rest = remaining_lines(interior, local_id);
    let count = rest.len() as int;
    let rest_held = kept_held.subrange(0, count);
    assert forall|i: int| 0 <= i < rest.len() implies line_holds(
        #[trigger] rest[i],
        rest_held[i],
    ) by {
        assert(line_holds(kept[i], kept_held[i]));
    }
    lemma_held_entries_same(rest_held, kept_held, count);
    let ending = line_ending(raw);
    let base = base_indent(raw, open);
    let rows = cleaned_rows(rest, ending);
    lemma_cleaned_rows_hold(rest, rest_held, ending);
    lemma_cleaned_rows_text(rest, ending, count);
    let tail: Seq<u8> = if count == 0 {
        seq![]
    } else {
        base
    };
    assert(all_plain(tail)) by {
        lemma_indent_is_space(raw, open);
        lemma_space_is_plain(base);
    }
    let text = rows_text(rows, rows.len() as int);
    let out = remove_result(raw, local_id)->Ok_0;
    assert(rebuilt_interior(interior, local_id, ending, base) =~= text + tail);
    assert(out =~= raw.subrange(0, open + 1) + (text + tail) + raw.subrange(
        close,
        raw.len() as int,
    ));
    let block = seq![OPEN_BRACE] + text + tail + seq![CLOSE_BRACE];
    let new_close = open + block.len() - 1;
    assert(out.subrange(open, open + block.len()) =~= block);
    assert(out.subrange(0, open + 1) =~= raw.subrange(0, open + 1));
    lemma_scan_row_block(out, open, rows, rest_held, tail);
    lemma_block_span_of_edit(raw, out, new_close);
    assert(block.subrange(0, block.len() as int) =~= block);
    lemma_scan_row_block(block, 0, rows, rest_held, tail);
    lemma_whole_block_entries(block);
    assert(out.subrange(open, new_close + 1) =~= block);
}

/// Lines of plain bytes are joined to plain bytes.
pub proof fn lemma_joined_plain(lines: Seq<Seq<u8>>)
    requires
        forall|i: int| 0 <= i < lines.len() ==> all_plain(#[trigger] lines[i]),
    ensures
        all_plain(join_lines(lines)),
    decreases lines.len(),
{
    let joined = join_lines(lines);
    if lines.len() == 1 {
        assert(all_plain(lines[0]));
    } else if lines.len() >= 2 {
        let front = join_lines(lines.drop_last());
        assert forall|i: int| 0 <= i < lines.drop_last().len() implies all_plain(
            #[trigger] lines.drop_last()[i],
        ) by {
            assert(all_plain(lines[i]));
        }
        lemma_joined_plain(lines.drop_last());
        assert(all_plain(lines[lines.len() - 1]));
        assert forall|k: int| 0 <= k < joined.len() implies is_plain(#[trigger] joined[k]) by {
            if k < front.len() {
                assert(joined[k] == front[k]);
            } else if k > front.len() {
                assert(joined[k] == lines.last()[k - front.len() - 1]);
            }
        }
    }
}

/// In a block whose lines hold one entry each, a replacement keeps a
/// balanced text: it keeps the blank lines and nothing else.
pub proof fn lemma_lined_block_keeps_balanced(
    raw: Seq<u8>,
    held: Seq<Option<(Seq<u8>, Seq<u8>)>>,
)
    requires
        block_span(raw) is Ok,
        lines_hold(
            split_lines(raw.subrange(block_span(raw)->Ok_0.0 + 1, block_span(raw)->Ok_0.1)),
            held,
        ),
    ensures
        keeps_balanced_text(raw),
{
    let (open, close) = block_span(raw)->Ok_0;
    let interior = raw.subrange(open + 1, close);
    let lines = split_lines(interior);
    let kept = lines.filter(is_other_line());
    assert forall|i: int| 0 <= i < kept.len() implies all_plain(#[trigger] kept[i]) by {
        lines.lemma_filter_pred(is_other_line(), i);
        assert(kept.contains(kept[i]));
        lines.lemma_filter_contains_rev(is_other_line(), kept[i]);
        let j = choose|j: int| 0 <= j < lines.len() && lines[j] == kept[i];
        assert(line_holds(lines[j], held[j]));
        match held[j] {
            None => {
                lemma_blank_is_plain(lines[j]);
            },
            Some((local_id, value)) => {
                let text = trim(lines[j]);
                let stripped = strip_trailing_commas(text);
                lemma_entry_text_parts(local_id, value);
                lemma_quoted_prefix_bytes();
                lemma_comma_run_start(text, text.len() as int);
                lemma_trailing_space_bytes(stripped, 0, stripped.len() as int);
                let core = line_core(lines[j]);
                assert(core.subrange(0, 13) =~= quoted_prefix());
                assert(text.subrange(0, 13) =~= core.subrange(0, 13));
                assert(occurs_at(text, quoted_prefix(), 0));
                assert(is_entry_line(lines[j]));
            },
        }
    }
    lemma_joined_plain(kept);
    let joined = join_lines(kept);
    lemma_trailing_space_bytes(joined, 0, joined.len() as int);
    let text = kept_text(interior);
    let ending = line_ending(raw);
    let closed = closed_text(text, ending);
    assert forall|k: int| 0 <= k < closed.len() implies is_plain(#[trigger] closed[k]) by {
        if k < text.len() {
            assert(closed[k] == joined[k]);
            assert(is_plain(joined[k]));
        } else if k < closed.len() - ending.len() {
            assert(closed[k] == COMMA);
        } else {
            assert(closed[k] == ending[k - (closed.len() - ending.len())]);
        }
    }
    let no_rows = Seq::<Seq<u8>>::empty();
    let nothing = Seq::<Option<(Seq<u8>, Seq<u8>)>>::empty();
    let both = seq![OPEN_BRACE] + closed + seq![CLOSE_BRACE];
    assert(rows_text(no_rows, 0) =~= Seq::<u8>::empty());
    assert(both =~= seq![OPEN_BRACE] + rows_text(no_rows, no_rows.len() as int) + closed + seq![
        CLOSE_BRACE,
    ]);
    assert(both.subrange(0, both.len() as int) =~= both);
    lemma_scan_row_block(both, 0, no_rows, nothing, closed);
}

} // verus!
