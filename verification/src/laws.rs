//! What holds of the editor whatever the document.
//!
//! * Each operation rewrites the interior of the block and nothing else.
//! * What an insert or a replacement writes, the scanner reads back; so
//!   emptying a block and writing its entries back gives the same entries.
//! * A delete fails only if nothing mentions the identifier, leaves the text
//!   of the other lines alone, and puts a comma behind every line but the
//!   last; where every line holds one entry, the scanner reads the other
//!   entries as they were.

use crate::bytes::{
    contains, lemma_occurrence_bytes, lemma_occurs_in_part, lemma_occurs_inside, occurs_at,
    CLOSE_BRACE, COMMA, NEWLINE, OPEN_BRACE, QUOTE, SPACE,
};
use crate::cleaned::{
    lemma_cleaned_line_keeps_occurrence, lemma_comma_run_start, lemma_core_comma,
    lemma_line_outlasts_blank_tail, lemma_rebuilt_line, lemma_without_blank_tail,
};
use crate::emptied::lemma_emptied_keeps_balanced;
use crate::entry::{
    block_entries, document_entries, entries_from, portal_prefix, quoted_prefix, EntryView, Status,
};
use crate::error::EditError;
use crate::insert::{
    holds_local_id, input_texts, insert_new_result, insert_result, is_new_to, kept_until, separator,
};
use crate::kept::{
    are_insertable, lemma_inserted_block_entries, lemma_inserted_block_span, template_pairs,
};
use crate::layout::{
    base_indent, entry_indent, entry_line, entry_lines, entry_lines_upto, line_ending,
    template_value, InputView,
};
use crate::lined::{
    lemma_lined_block_after_remove, lemma_lined_block_entries, lemma_lined_block_keeps_balanced,
    line_holds, lines_hold, unmentioned_held,
};
use crate::lines::{lemma_line_occurrence, lemma_occurrence_in_line, split_lines};
use crate::locate::{block_span, lemma_block_span_balanced, lemma_block_span_of_edit};
use crate::quoted::{
    is_plain_gw_id, is_string_body, lemma_portal_prefix_plain, lemma_template_value_is_body,
    lemma_template_value_is_read_back,
};
use crate::remove::{
    cleaned_line, is_mentioned, is_unrelated, line_core, mentions, rebuilt_interior, rebuilt_upto,
    remaining_lines, remove_result, target_key,
};
use crate::replace::{closed_text, kept_text, pair_texts, replace_result};
use crate::rescan::{
    are_string_bodies, keeps_balanced_text, lemma_closed_text_has_no_prefix, lemma_entry_key_stands,
    lemma_entry_text_parts, lemma_indent_is_space, lemma_kept_text_has_no_prefix,
    lemma_lines_prefix, lemma_quoted_prefix_bytes, lemma_scan_replaced_block,
    lemma_scanned_entries_are_rewritable, written_entries,
};
use crate::rows::held_entries;
use crate::runs::{lemma_entries_split, normal};
use crate::scan::ScanState;
use crate::space::{
    indent_of, is_blank, is_blank_byte, is_space_byte, lemma_blank_run_start,
    lemma_trailing_space_bytes, lemma_trim_keeps_occurrence, lemma_trimmed_occurrence,
    strip_trailing_commas, trim,
};
use vstd::prelude::*;

verus! {

/// `out` begins with the first `upto` bytes of `raw`.
pub open spec fn same_head(raw: Seq<u8>, out: Seq<u8>, upto: int) -> bool {
    0 <= upto <= raw.len() && upto <= out.len() && out.subrange(0, upto) == raw.subrange(0, upto)
}

/// `out` ends with the bytes of `raw` from `from` on.
pub open spec fn same_tail(raw: Seq<u8>, out: Seq<u8>, from: int) -> bool {
    0 <= from <= raw.len() && raw.len() - from <= out.len() && out.subrange(
        out.len() - (raw.len() - from),
        out.len() as int,
    ) == raw.subrange(from, raw.len() as int)
}

/// Insert keeps every byte of the document up to the last byte of the
/// interior that is not blank, and every byte from the closing brace on.
/// Between them it writes a comma if the block held anything, the line
/// ending of the document, one line for each entry at the indentation of
/// the block plus two spaces, and the indentation of the block. An insert of
/// nothing writes nothing.
pub proof fn lemma_insert_rewrites_blank_tail_only(raw: Seq<u8>, inputs: Seq<InputView>)
    requires
        block_span(raw) is Ok,
        inputs.len() > 0,
    ensures
        insert_result(raw, inputs) is Ok,
        ({
            let (open, close) = block_span(raw)->Ok_0;
            let out = insert_result(raw, inputs)->Ok_0;
            let keep = kept_until(raw, close);
            let written = separator(raw.subrange(open + 1, close)) + line_ending(raw)
                + entry_lines(
                base_indent(raw, open) + seq![crate::bytes::SPACE, crate::bytes::SPACE],
                line_ending(raw),
                input_texts(inputs),
            ) + base_indent(raw, open);
            &&& open < keep <= close
            &&& forall|k: int| keep <= k < close ==> is_blank_byte(#[trigger] raw[k])
            &&& same_head(raw, out, keep)
            &&& same_tail(raw, out, close)
            &&& out.len() == keep + written.len() + (raw.len() - close)
            &&& out.subrange(keep, keep + written.len()) == written
        }),
{
    lemma_block_span_balanced(raw);
    let (open, close) = block_span(raw)->Ok_0;
    let out = insert_result(raw, inputs)->Ok_0;
    let before = raw.subrange(0, close);
    let keep = kept_until(raw, close);
    lemma_blank_run_start(before, close);
    assert(before[open] == OPEN_BRACE);
    assert(keep > open) by {
        if keep <= open {
            assert(is_blank_byte(before[open]));
        }
    }
    assert forall|k: int| keep <= k < close implies is_blank_byte(#[trigger] raw[k]) by {
        assert(before[k] == raw[k]);
    }
    let written = separator(raw.subrange(open + 1, close)) + line_ending(raw) + entry_lines(
        entry_indent(raw, open),
        line_ending(raw),
        input_texts(inputs),
    ) + base_indent(raw, open);
    assert(out == raw.subrange(0, keep) + written + raw.subrange(close, raw.len() as int));
    assert(out.subrange(0, keep) == raw.subrange(0, keep));
    assert(out.subrange(out.len() - (raw.len() - close), out.len() as int) == raw.subrange(
        close,
        raw.len() as int,
    ));
    assert(out.subrange(keep, keep + written.len()) == written);
}

/// Every line that an insert or a replacement writes is the indentation,
/// the text of the entry, a comma unless the entry is the last, and the line
/// ending; the lines stand one behind the other.
pub proof fn lemma_written_line(
    indent: Seq<u8>,
    ending: Seq<u8>,
    texts: Seq<Seq<u8>>,
    index: int,
)
    requires
        0 <= index < texts.len(),
    ensures
        ({
            let lines = entry_lines(indent, ending, texts);
            let from = entry_lines_upto(indent, ending, texts, index).len() as int;
            let line = indent + texts[index] + (if index + 1 == texts.len() {
                Seq::<u8>::empty()
            } else {
                seq![COMMA]
            }) + ending;
            &&& from + line.len() <= lines.len()
            &&& lines.subrange(from, from + line.len()) == line
            &&& index + 1 == texts.len() ==> from + line.len() == lines.len()
        }),
{
    let lines = entry_lines(indent, ending, texts);
    let before = entry_lines_upto(indent, ending, texts, index);
    let with = entry_lines_upto(indent, ending, texts, index + 1);
    lemma_lines_prefix(indent, ending, texts, index + 1, texts.len() as int);
    assert(with == before + entry_line(indent, ending, texts[index], index + 1 == texts.len()));
    assert(lines.subrange(before.len() as int, with.len() as int) =~= lines.subrange(
        0,
        with.len() as int,
    ).subrange(before.len() as int, with.len() as int));
    assert(with.subrange(before.len() as int, with.len() as int) =~= entry_line(
        indent,
        ending,
        texts[index],
        index + 1 == texts.len(),
    ));
}

/// Replace keeps every byte of the document up to the opening brace of the
/// block and every byte from its closing brace on.
pub proof fn lemma_replace_keeps_outside(raw: Seq<u8>, pairs: Seq<(Seq<u8>, Seq<u8>)>)
    requires
        block_span(raw) is Ok,
    ensures
        replace_result(raw, pairs) is Ok,
        same_head(raw, replace_result(raw, pairs)->Ok_0, block_span(raw)->Ok_0.0 + 1),
        same_tail(raw, replace_result(raw, pairs)->Ok_0, block_span(raw)->Ok_0.1),
{
    lemma_block_span_balanced(raw);
    let (open, close) = block_span(raw)->Ok_0;
    let out = replace_result(raw, pairs)->Ok_0;
    let middle = out.subrange(open + 1, out.len() - (raw.len() - close));
    assert(out == raw.subrange(0, open + 1) + middle + raw.subrange(close, raw.len() as int));
    assert(out.subrange(0, open + 1) == raw.subrange(0, open + 1));
    assert(out.subrange(out.len() - (raw.len() - close), out.len() as int) == raw.subrange(
        close,
        raw.len() as int,
    ));
}

/// Delete, where it goes through, keeps every byte of the document up to the
/// opening brace of the block and every byte from its closing brace on.
pub proof fn lemma_remove_keeps_outside(raw: Seq<u8>, local_id: Seq<u8>)
    requires
        remove_result(raw, local_id) is Ok,
    ensures
        block_span(raw) is Ok,
        same_head(raw, remove_result(raw, local_id)->Ok_0, block_span(raw)->Ok_0.0 + 1),
        same_tail(raw, remove_result(raw, local_id)->Ok_0, block_span(raw)->Ok_0.1),
{
    lemma_block_span_balanced(raw);
    let (open, close) = block_span(raw)->Ok_0;
    let out = remove_result(raw, local_id)->Ok_0;
    let middle = out.subrange(open + 1, out.len() - (raw.len() - close));
    assert(out == raw.subrange(0, open + 1) + middle + raw.subrange(close, raw.len() as int));
    assert(out.subrange(0, open + 1) == raw.subrange(0, open + 1));
    assert(out.subrange(out.len() - (raw.len() - close), out.len() as int) == raw.subrange(
        close,
        raw.len() as int,
    ));
}

/// The interior of the block after a replacement: the kept text, one line
/// for each pair, and the base indentation.
pub open spec fn written_interior(raw: Seq<u8>, pairs: Seq<(Seq<u8>, Seq<u8>)>) -> Seq<u8> {
    let (open, close) = block_span(raw)->Ok_0;
    closed_text(kept_text(raw.subrange(open + 1, close)), line_ending(raw)) + entry_lines(
        entry_indent(raw, open),
        line_ending(raw),
        pair_texts(pairs),
    ) + base_indent(raw, open)
}

/// After a replacement the scanner reads exactly what was written: if the
/// text that the replacement keeps is balanced and the pairs are string
/// bodies, the new document has its block where the old one had it, and the
/// entries of that block are the pairs, in their order.
#[verifier::rlimit(80)]
pub proof fn lemma_replace_then_scan(raw: Seq<u8>, pairs: Seq<(Seq<u8>, Seq<u8>)>)
    requires
        keeps_balanced_text(raw),
        are_string_bodies(pairs),
    ensures
        replace_result(raw, pairs) is Ok,
        block_span(replace_result(raw, pairs)->Ok_0) == Ok::<(int, int), EditError>(
            (
                block_span(raw)->Ok_0.0,
                block_span(raw)->Ok_0.0 + 1 + written_interior(raw, pairs).len(),
            ),
        ),
        document_entries(replace_result(raw, pairs)->Ok_0) == Ok::<Seq<EntryView>, EditError>(
            written_entries(pairs),
        ),
{
    lemma_block_span_balanced(raw);
    let (open, close) = block_span(raw)->Ok_0;
    let ending = line_ending(raw);
    let text = closed_text(kept_text(raw.subrange(open + 1, close)), ending);
    let indent = entry_indent(raw, open);
    let base = base_indent(raw, open);
    let lines = entry_lines(indent, ending, pair_texts(pairs));
    let out = replace_result(raw, pairs)->Ok_0;
    let block = seq![OPEN_BRACE] + text + lines + base + seq![CLOSE_BRACE];
    let new_close = open + block.len() - 1;
    lemma_indent_is_space(raw, open);
    lemma_kept_text_has_no_prefix(raw.subrange(open + 1, close));
    lemma_closed_text_has_no_prefix(kept_text(raw.subrange(open + 1, close)), ending);
    assert(out == raw.subrange(0, open + 1) + text + lines + base + raw.subrange(
        close,
        raw.len() as int,
    ));
    assert(out.subrange(open, open + block.len()) =~= block);
    assert(out.subrange(0, open + 1) =~= raw.subrange(0, open + 1));
    lemma_scan_replaced_block(out, open, text, indent, ending, pairs, base);
    lemma_block_span_of_edit(raw, out, new_close);
    assert(block.subrange(0, block.len() as int) =~= block);
    lemma_scan_replaced_block(block, 0, text, indent, ending, pairs, base);
    lemma_entries_split(block, 0, ScanState::initial(), block.len() as int, normal());
    assert(entries_from(block, block.len() as int, normal()) == Seq::<EntryView>::empty());
    assert(out.subrange(open, new_close + 1) == block);
    assert(block_entries(block) =~= written_entries(pairs));
}

/// A replacement leaves no prefixed key behind: what it keeps of the block
/// does not hold a quote followed by the entry prefix. So after a
/// replacement by nothing that text stands nowhere in the block.
pub proof fn lemma_replace_leaves_no_prefixed_key(raw: Seq<u8>)
    requires
        block_span(raw) is Ok,
    ensures
        !contains(
            closed_text(
                kept_text(raw.subrange(block_span(raw)->Ok_0.0 + 1, block_span(raw)->Ok_0.1)),
                line_ending(raw),
            ),
            quoted_prefix(),
        ),
        !contains(written_interior(raw, Seq::empty()), quoted_prefix()),
{
    lemma_block_span_balanced(raw);
    let (open, close) = block_span(raw)->Ok_0;
    let kept = kept_text(raw.subrange(open + 1, close));
    let closed = closed_text(kept, line_ending(raw));
    let base = base_indent(raw, open);
    let none = Seq::<(Seq<u8>, Seq<u8>)>::empty();
    lemma_kept_text_has_no_prefix(raw.subrange(open + 1, close));
    lemma_closed_text_has_no_prefix(kept, line_ending(raw));
    lemma_quoted_prefix_bytes();
    lemma_indent_is_space(raw, open);
    assert(pair_texts(none) =~= Seq::<Seq<u8>>::empty());
    let text = written_interior(raw, none);
    assert(text =~= closed + base);
    if contains(text, quoted_prefix()) {
        let at = choose|at: int| occurs_at(text, quoted_prefix(), at);
        if at + 13 <= closed.len() {
            lemma_occurs_inside(text, 0, closed.len() as int, quoted_prefix(), at);
            assert(text.subrange(0, closed.len() as int) =~= closed);
        } else {
            lemma_occurrence_bytes(text, quoted_prefix(), at, 12);
            assert(text[at + 12] == base[at + 12 - closed.len()]);
            assert(is_space_byte(base[at + 12 - closed.len()]));
        }
    }
}

/// The pairs hold the local identifier and the raw value of every entry,
/// and nothing else.
pub open spec fn maps_entries(pairs: Seq<(Seq<u8>, Seq<u8>)>, entries: Seq<EntryView>) -> bool {
    &&& forall|i: int|
        0 <= i < entries.len() ==> exists|j: int|
            0 <= j < pairs.len() && #[trigger] pairs[j] == (
                (#[trigger] entries[i]).local_id,
                entries[i].raw_value,
            )
    &&& forall|j: int|
        0 <= j < pairs.len() ==> exists|i: int|
            0 <= i < entries.len() && #[trigger] pairs[j] == (
                (#[trigger] entries[i]).local_id,
                entries[i].raw_value,
            )
}

/// The two lists hold the same entries, in whatever order and however often.
pub open spec fn same_entries(a: Seq<EntryView>, b: Seq<EntryView>) -> bool {
    forall|e: EntryView| a.contains(e) <==> b.contains(e)
}

/// Writing the mapping of the scanned entries into the emptied block gives a
/// document with the same entries, if the lines that a replacement keeps of
/// the emptied block are balanced.
#[verifier::rlimit(80)]
proof fn lemma_round_trip_from_emptied(raw: Seq<u8>, pairs: Seq<(Seq<u8>, Seq<u8>)>)
    requires
        document_entries(raw) is Ok,
        maps_entries(pairs, document_entries(raw)->Ok_0),
        keeps_balanced_text(replace_result(raw, Seq::empty())->Ok_0),
    ensures
        replace_result(raw, Seq::empty()) is Ok,
        replace_result(replace_result(raw, Seq::empty())->Ok_0, pairs) is Ok,
        document_entries(
            replace_result(replace_result(raw, Seq::empty())->Ok_0, pairs)->Ok_0,
        ) is Ok,
        same_entries(
            document_entries(raw)->Ok_0,
            document_entries(
                replace_result(replace_result(raw, Seq::empty())->Ok_0, pairs)->Ok_0,
            )->Ok_0,
        ),
{
    let (open, close) = block_span(raw)->Ok_0;
    let block = raw.subrange(open, close + 1);
    let before = document_entries(raw)->Ok_0;
    let emptied = replace_result(raw, Seq::empty())->Ok_0;
    assert(before == entries_from(block, 0, ScanState::initial()));
    assert forall|j: int| 0 <= j < pairs.len() implies is_string_body((#[trigger] pairs[j]).0)
        && is_string_body(pairs[j].1) by {
        let i = choose|i: int|
            0 <= i < before.len() && #[trigger] pairs[j] == (
                (#[trigger] before[i]).local_id,
                before[i].raw_value,
            );
        lemma_scanned_entries_are_rewritable(block, 0, ScanState::initial(), i);
    }
    lemma_replace_then_scan(emptied, pairs);
    let after = written_entries(pairs);
    assert forall|e: EntryView| before.contains(e) <==> after.contains(e) by {
        if before.contains(e) {
            let i = choose|i: int| 0 <= i < before.len() && before[i] == e;
            lemma_scanned_entries_are_rewritable(block, 0, ScanState::initial(), i);
            let j = choose|j: int|
                0 <= j < pairs.len() && #[trigger] pairs[j] == (
                    (#[trigger] before[i]).local_id,
                    before[i].raw_value,
                );
            assert(after[j] == e);
        }
        if after.contains(e) {
            let j = choose|j: int| 0 <= j < after.len() && after[j] == e;
            let i = choose|i: int|
                0 <= i < before.len() && #[trigger] pairs[j] == (
                    (#[trigger] before[i]).local_id,
                    before[i].raw_value,
                );
            lemma_scanned_entries_are_rewritable(block, 0, ScanState::initial(), i);
            assert(before[i] == e);
        }
    }
}

/// Emptying a block and writing back the entries that were scanned from it
/// gives a document with the same entries. The pairs written back are the
/// mapping of the scanned entries, so no local identifier may have stood in
/// the block with two different values; and the lines that a replacement
/// keeps of the block must be balanced, so that the emptied document still
/// has its block. They are balanced in a block whose lines hold one entry
/// each.
pub proof fn lemma_round_trip(raw: Seq<u8>, pairs: Seq<(Seq<u8>, Seq<u8>)>)
    requires
        keeps_balanced_text(raw),
        maps_entries(pairs, document_entries(raw)->Ok_0),
    ensures
        replace_result(raw, Seq::empty()) is Ok,
        replace_result(replace_result(raw, Seq::empty())->Ok_0, pairs) is Ok,
        document_entries(
            replace_result(replace_result(raw, Seq::empty())->Ok_0, pairs)->Ok_0,
        ) is Ok,
        same_entries(
            document_entries(raw)->Ok_0,
            document_entries(
                replace_result(replace_result(raw, Seq::empty())->Ok_0, pairs)->Ok_0,
            )->Ok_0,
        ),
{
    lemma_emptied_keeps_balanced(raw);
    lemma_round_trip_from_emptied(raw, pairs);
}

/// A delete of a local identifier that occurs nowhere in the block fails
/// with `KeyNotFound`.
pub proof fn lemma_remove_unknown_fails(raw: Seq<u8>, local_id: Seq<u8>)
    requires
        block_span(raw) is Ok,
        !contains(
            raw.subrange(block_span(raw)->Ok_0.0 + 1, block_span(raw)->Ok_0.1),
            local_id,
        ),
    ensures
        remove_result(raw, local_id) == Err::<Seq<u8>, EditError>(EditError::KeyNotFound),
{
    let (open, close) = block_span(raw)->Ok_0;
    let interior = raw.subrange(open + 1, close);
    let lines = split_lines(interior);
    if is_mentioned(lines, local_id) {
        let i = choose|i: int| 0 <= i < lines.len() && mentions(#[trigger] lines[i], local_id);
        let text = trim(lines[i]);
        if contains(text, target_key(local_id)) {
            let at = choose|at: int| occurs_at(text, target_key(local_id), at);
            lemma_portal_prefix_plain();
            assert(text.subrange(at + 13, at + 13 + local_id.len()) =~= local_id) by {
                assert forall|k: int| 0 <= k < local_id.len() implies text[at + 13 + k]
                    == local_id[k] by {
                    lemma_occurrence_bytes(text, target_key(local_id), at, 13 + k);
                }
            }
            assert(occurs_at(text, local_id, at + 13));
        }
        assert(contains(text, local_id));
        lemma_trimmed_occurrence(lines[i], local_id);
        lemma_line_occurrence(interior, i, local_id);
    }
}

/// A delete goes through if the key literal of the local identifier stands
/// in the block, on one line.
pub proof fn lemma_remove_known_succeeds(raw: Seq<u8>, local_id: Seq<u8>)
    requires
        block_span(raw) is Ok,
        contains(
            raw.subrange(block_span(raw)->Ok_0.0 + 1, block_span(raw)->Ok_0.1),
            target_key(local_id),
        ),
        forall|k: int| 0 <= k < local_id.len() ==> local_id[k] != NEWLINE,
    ensures
        remove_result(raw, local_id) is Ok,
{
    let (open, close) = block_span(raw)->Ok_0;
    let interior = raw.subrange(open + 1, close);
    let key = target_key(local_id);
    lemma_portal_prefix_plain();
    assert forall|k: int| 0 <= k < key.len() implies key[k] != NEWLINE by {
        reveal_strlit("portal_frag_");
        if 1 <= k < 13 {
            assert(key[k] == portal_prefix()[k - 1]);
            assert(portal_prefix()[k - 1] != NEWLINE);
        } else if 13 <= k < key.len() - 1 {
            assert(key[k] == local_id[k - 13]);
        }
    }
    lemma_occurrence_in_line(interior, key);
    let lines = split_lines(interior);
    let i = choose|i: int| 0 <= i < lines.len() && contains(#[trigger] lines[i], key);
    let at = choose|at: int| occurs_at(lines[i], key, at);
    assert(key.last() == QUOTE);
    lemma_trim_keeps_occurrence(lines[i], key, at);
    assert(mentions(lines[i], local_id));
}

/// Inputs whose identifiers are string bodies can be inserted.
pub proof fn lemma_bodies_are_insertable(inputs: Seq<InputView>)
    requires
        forall|i: int|
            0 <= i < inputs.len() ==> is_string_body((#[trigger] inputs[i]).local_id)
                && is_string_body(inputs[i].gw_id),
    ensures
        are_insertable(inputs),
{
    assert forall|i: int| 0 <= i < inputs.len() implies is_string_body(
        (#[trigger] inputs[i]).local_id,
    ) && is_string_body(template_value(inputs[i].gw_id)) by {
        lemma_template_value_is_body(inputs[i].gw_id);
    }
}

/// After an insert the scanner reads the entries that the block held,
/// followed by the entries that were written: one for each input, with the
/// value that the template makes of its gateway identifier.
pub proof fn lemma_insert_then_scan(raw: Seq<u8>, inputs: Seq<InputView>)
    requires
        block_span(raw) is Ok,
        are_insertable(inputs),
    ensures
        insert_result(raw, inputs) is Ok,
        block_span(insert_result(raw, inputs)->Ok_0) is Ok,
        block_span(insert_result(raw, inputs)->Ok_0)->Ok_0.0 == block_span(raw)->Ok_0.0,
        document_entries(insert_result(raw, inputs)->Ok_0) == Ok::<Seq<EntryView>, EditError>(
            document_entries(raw)->Ok_0 + written_entries(template_pairs(inputs)),
        ),
{
    if inputs.len() > 0 {
        lemma_inserted_block_span(raw, inputs);
        lemma_inserted_block_entries(raw, inputs);
    } else {
        assert(written_entries(template_pairs(inputs)) =~= Seq::<EntryView>::empty());
        assert(document_entries(raw)->Ok_0 + Seq::<EntryView>::empty() =~= document_entries(
            raw,
        )->Ok_0);
    }
}

/// The entry that the scanner reads for an input whose gateway identifier
/// can be read back: the local identifier, the gateway identifier, and the
/// value that the template makes of it.
pub open spec fn inserted_entry(input: InputView) -> EntryView {
    EntryView {
        local_id: input.local_id,
        gw_id: Some(input.gw_id),
        raw_value: template_value(input.gw_id),
        same_id: input.gw_id == input.local_id,
        status: Status::Normal,
    }
}

/// After an insert the scanner reads the entries that the block held, as
/// they were and in their order, followed by one entry for each input, in
/// the order of the inputs: with the local identifier and the gateway
/// identifier of the input, and with the template value as its value. The
/// identifiers must hold no quote that is not escaped and no open escape, and
/// the gateway identifiers must hold something, no delimiter and no
/// whitespace at their ends.
pub proof fn lemma_insert_reads_back(raw: Seq<u8>, inputs: Seq<InputView>)
    requires
        block_span(raw) is Ok,
        are_insertable(inputs),
        forall|i: int| 0 <= i < inputs.len() ==> is_plain_gw_id((#[trigger] inputs[i]).gw_id),
    ensures
        insert_result(raw, inputs) is Ok,
        document_entries(insert_result(raw, inputs)->Ok_0) == Ok::<Seq<EntryView>, EditError>(
            document_entries(raw)->Ok_0 + inputs.map_values(
                |input: InputView| inserted_entry(input),
            ),
        ),
{
    lemma_insert_then_scan(raw, inputs);
    let written = written_entries(template_pairs(inputs));
    let read = inputs.map_values(|input: InputView| inserted_entry(input));
    assert forall|i: int| 0 <= i < inputs.len() implies written[i] == read[i] by {
        lemma_template_value_is_read_back(inputs[i].gw_id);
    }
    assert(written =~= read);
}

/// An insert that leaves out what the block already holds fails with
/// `DuplicateLocalId` exactly if there are inputs and the block holds the
/// local identifier of each; else the scanner reads from the new document
/// the entries that the block held, followed by one entry for each input
/// that was new.
pub proof fn lemma_insert_new_then_scan(raw: Seq<u8>, inputs: Seq<InputView>)
    requires
        document_entries(raw) is Ok,
        are_insertable(inputs.filter(is_new_to(document_entries(raw)->Ok_0))),
    ensures
        insert_new_result(raw, inputs) == Err::<Seq<u8>, EditError>(EditError::DuplicateLocalId)
            <==> inputs.len() > 0 && forall|i: int|
            0 <= i < inputs.len() ==> holds_local_id(
                document_entries(raw)->Ok_0,
                (#[trigger] inputs[i]).local_id,
            ),
        insert_new_result(raw, inputs) is Ok ==> document_entries(
            insert_new_result(raw, inputs)->Ok_0,
        ) == Ok::<Seq<EntryView>, EditError>(
            document_entries(raw)->Ok_0 + written_entries(
                template_pairs(inputs.filter(is_new_to(document_entries(raw)->Ok_0))),
            ),
        ),
{
    let held = document_entries(raw)->Ok_0;
    let test = is_new_to(held);
    let pending = inputs.filter(test);
    if pending.len() > 0 {
        lemma_insert_then_scan(raw, pending);
        inputs.lemma_filter_pred(test, 0);
        assert(inputs.contains(pending[0])) by {
            assert(pending.contains(pending[0]));
            inputs.lemma_filter_contains_rev(test, pending[0]);
        }
        let i = choose|i: int| 0 <= i < inputs.len() && inputs[i] == pending[0];
        assert(!holds_local_id(held, inputs[i].local_id));
    } else {
        assert forall|i: int| 0 <= i < inputs.len() implies holds_local_id(
            held,
            (#[trigger] inputs[i]).local_id,
        ) by {
            if !holds_local_id(held, inputs[i].local_id) {
                inputs.lemma_filter_contains(test, i);
                assert(pending.contains(inputs[i]));
            }
        }
    }
}

/// The inputs hold the local identifier of every entry with a gateway
/// identifier of which the template makes the raw value of that entry, and
/// nothing else.
pub open spec fn restores_entries(inputs: Seq<InputView>, entries: Seq<EntryView>) -> bool {
    &&& forall|i: int|
        0 <= i < entries.len() ==> exists|j: int|
            0 <= j < inputs.len() && (#[trigger] inputs[j]).local_id == (
            #[trigger] entries[i]).local_id && template_value(inputs[j].gw_id)
                == entries[i].raw_value
    &&& forall|j: int|
        0 <= j < inputs.len() ==> exists|i: int|
            0 <= i < entries.len() && (#[trigger] inputs[j]).local_id == (
            #[trigger] entries[i]).local_id && template_value(inputs[j].gw_id)
                == entries[i].raw_value
}

/// Emptying a block and inserting the entries that were scanned from it
/// gives a document with the same entries, if the values of the entries are
/// what the template makes of their gateway identifiers and the lines that
/// the replacement keeps are balanced. The scanner reads one entry for each
/// input, in the order of the inputs.
#[verifier::rlimit(80)]
pub proof fn lemma_round_trip_by_insert(raw: Seq<u8>, inputs: Seq<InputView>)
    requires
        keeps_balanced_text(raw),
        restores_entries(inputs, document_entries(raw)->Ok_0),
    ensures
        replace_result(raw, Seq::empty()) is Ok,
        insert_result(replace_result(raw, Seq::empty())->Ok_0, inputs) is Ok,
        document_entries(
            insert_result(replace_result(raw, Seq::empty())->Ok_0, inputs)->Ok_0,
        ) == Ok::<Seq<EntryView>, EditError>(written_entries(template_pairs(inputs))),
        same_entries(
            document_entries(raw)->Ok_0,
            document_entries(
                insert_result(replace_result(raw, Seq::empty())->Ok_0, inputs)->Ok_0,
            )->Ok_0,
        ),
{
    let (open, close) = block_span(raw)->Ok_0;
    let block = raw.subrange(open, close + 1);
    let before = document_entries(raw)->Ok_0;
    assert(before == entries_from(block, 0, ScanState::initial()));
    let none = Seq::<(Seq<u8>, Seq<u8>)>::empty();
    lemma_replace_then_scan(raw, none);
    let emptied = replace_result(raw, none)->Ok_0;
    assert(written_entries(none) =~= Seq::<EntryView>::empty());
    assert forall|j: int| 0 <= j < inputs.len() implies is_string_body(
        (#[trigger] inputs[j]).local_id,
    ) && is_string_body(template_value(inputs[j].gw_id)) by {
        let i = choose|i: int|
            0 <= i < before.len() && (#[trigger] inputs[j]).local_id == (
            #[trigger] before[i]).local_id && template_value(inputs[j].gw_id)
                == before[i].raw_value;
        lemma_scanned_entries_are_rewritable(block, 0, ScanState::initial(), i);
    }
    lemma_insert_then_scan(emptied, inputs);
    let after = written_entries(template_pairs(inputs));
    assert(document_entries(insert_result(emptied, inputs)->Ok_0)->Ok_0 =~= after);
    assert forall|e: EntryView| before.contains(e) <==> after.contains(e) by {
        if before.contains(e) {
            let i = choose|i: int| 0 <= i < before.len() && before[i] == e;
            lemma_scanned_entries_are_rewritable(block, 0, ScanState::initial(), i);
            let j = choose|j: int|
                0 <= j < inputs.len() && (#[trigger] inputs[j]).local_id == (
                #[trigger] before[i]).local_id && template_value(inputs[j].gw_id)
                    == before[i].raw_value;
            assert(after[j] == e);
        }
        if after.contains(e) {
            let j = choose|j: int| 0 <= j < after.len() && after[j] == e;
            let i = choose|i: int|
                0 <= i < before.len() && (#[trigger] inputs[j]).local_id == (
                #[trigger] before[i]).local_id && template_value(inputs[j].gw_id)
                    == before[i].raw_value;
            lemma_scanned_entries_are_rewritable(block, 0, ScanState::initial(), i);
            assert(before[i] == e);
        }
    }
}

/// A delete of a local identifier that an entry of the block carries goes
/// through, unless the identifier holds a line feed.
pub proof fn lemma_remove_known_entry_succeeds(raw: Seq<u8>, local_id: Seq<u8>)
    requires
        document_entries(raw) is Ok,
        holds_local_id(document_entries(raw)->Ok_0, local_id),
        forall|k: int| 0 <= k < local_id.len() ==> local_id[k] != NEWLINE,
    ensures
        remove_result(raw, local_id) is Ok,
{
    lemma_block_span_balanced(raw);
    let (open, close) = block_span(raw)->Ok_0;
    let block = raw.subrange(open, close + 1);
    let entries = document_entries(raw)->Ok_0;
    let k = choose|k: int| 0 <= k < entries.len() && (#[trigger] entries[k]).local_id == local_id;
    lemma_entry_key_stands(block, 0, ScanState::initial(), k);
    let key = target_key(local_id);
    let i = choose|i: int| 0 <= i && #[trigger] occurs_at(block, key, i);
    lemma_occurrence_bytes(block, key, i, 0);
    lemma_occurrence_bytes(block, key, i, key.len() - 1);
    assert(block[0] == OPEN_BRACE);
    assert(block[close - open] == CLOSE_BRACE);
    lemma_occurs_inside(block, 1, close - open, key, i);
    assert(block.subrange(1, close - open) =~= raw.subrange(open + 1, close));
    lemma_remove_known_succeeds(raw, local_id);
}

/// A delete leaves the text of every other line as it is: what stands on a
/// line that does not mention the local identifier stands in the new
/// document, if it does not begin with a space byte and ends with neither a
/// space byte nor a comma. The text of an entry is of that kind.
pub proof fn lemma_remove_keeps_text(raw: Seq<u8>, local_id: Seq<u8>, line: int, needle: Seq<u8>)
    requires
        remove_result(raw, local_id) is Ok,
        0 <= line < split_lines(
            raw.subrange(block_span(raw)->Ok_0.0 + 1, block_span(raw)->Ok_0.1),
        ).len(),
        !mentions(
            split_lines(raw.subrange(block_span(raw)->Ok_0.0 + 1, block_span(raw)->Ok_0.1))[line],
            local_id,
        ),
        contains(
            split_lines(raw.subrange(block_span(raw)->Ok_0.0 + 1, block_span(raw)->Ok_0.1))[line],
            needle,
        ),
        needle.len() > 0,
        !is_space_byte(needle[0]),
        !is_space_byte(needle.last()),
        needle.last() != COMMA,
    ensures
        contains(remove_result(raw, local_id)->Ok_0, needle),
{
    lemma_block_span_balanced(raw);
    let (open, close) = block_span(raw)->Ok_0;
    let interior = raw.subrange(open + 1, close);
    let all = split_lines(interior);
    let kept = all.filter(is_unrelated(local_id));
    let text_line = all[line];
    lemma_cleaned_line_keeps_occurrence(text_line, needle, false);
    assert(kept.contains(text_line)) by {
        all.lemma_filter_contains(is_unrelated(local_id), line);
    }
    let i = choose|i: int| 0 <= i < kept.len() && kept[i] == text_line;
    lemma_line_outlasts_blank_tail(kept, i);
    let lines = remaining_lines(interior, local_id);
    let ending = line_ending(raw);
    let last = i + 1 == lines.len();
    lemma_cleaned_line_keeps_occurrence(text_line, needle, last);
    lemma_rebuilt_line(lines, ending, i);
    let text = rebuilt_upto(lines, ending, lines.len() as int);
    let from = rebuilt_upto(lines, ending, i).len() as int;
    let cleaned = cleaned_line(lines[i], last);
    let inside = choose|inside: int| occurs_at(cleaned, needle, inside);
    assert(text.subrange(from, from + cleaned.len()) =~= cleaned) by {
        assert(text.subrange(from, from + cleaned.len()) =~= text.subrange(
            from,
            from + (cleaned + ending).len(),
        ).subrange(0, cleaned.len() as int));
    }
    lemma_occurs_in_part(text, from, from + cleaned.len(), needle, inside);
    let out = remove_result(raw, local_id)->Ok_0;
    assert(out == raw.subrange(0, open + 1) + (text + base_indent(raw, open)) + raw.subrange(
        close,
        raw.len() as int,
    ));
    assert(out.subrange(open + 1, open + 1 + text.len()) =~= text);
    lemma_occurs_in_part(out, open + 1, open + 1 + text.len(), needle, from + inside);
}

/// After a delete the lines that remain stand in the block one behind the
/// other, each with the line ending behind it. A line that is not blank is
/// its own indentation, its text without the commas and the whitespace at
/// its end, and a comma unless it is the last line; the last line is not
/// blank, and its text ends with a comma only if that comma stood in front
/// of whitespace and further commas. A blank line is an empty line.
pub proof fn lemma_remove_puts_commas_right(
    interior: Seq<u8>,
    local_id: Seq<u8>,
    ending: Seq<u8>,
    base: Seq<u8>,
)
    ensures
        ({
            let lines = remaining_lines(interior, local_id);
            let all = rebuilt_upto(lines, ending, lines.len() as int);
            &&& lines.len() > 0 ==> rebuilt_interior(interior, local_id, ending, base) == all
                + base
            &&& lines.len() > 0 ==> !is_blank(lines.last())
            &&& forall|i: int|
                0 <= i < lines.len() ==> ({
                    let from = (#[trigger] rebuilt_upto(lines, ending, i)).len() as int;
                    let line = (if is_blank(lines[i]) {
                        Seq::<u8>::empty()
                    } else if i + 1 == lines.len() {
                        indent_of(lines[i]) + line_core(lines[i])
                    } else {
                        indent_of(lines[i]) + line_core(lines[i]) + seq![COMMA]
                    }) + ending;
                    from + line.len() <= all.len() && all.subrange(from, from + line.len())
                        == line
                })
            &&& lines.len() > 0 && line_core(lines.last()).len() > 0 && line_core(
                lines.last(),
            ).last() == COMMA ==> line_core(lines.last()).len() < strip_trailing_commas(
                trim(lines.last()),
            ).len()
        }),
{
    let kept = split_lines(interior).filter(is_unrelated(local_id));
    let lines = remaining_lines(interior, local_id);
    let all = rebuilt_upto(lines, ending, lines.len() as int);
    lemma_without_blank_tail(kept);
    if lines.len() > 0 {
        lemma_core_comma(lines.last());
    }
    assert forall|i: int| 0 <= i < lines.len() implies ({
        let from = (#[trigger] rebuilt_upto(lines, ending, i)).len() as int;
        let line = (if is_blank(lines[i]) {
            Seq::<u8>::empty()
        } else if i + 1 == lines.len() {
            indent_of(lines[i]) + line_core(lines[i])
        } else {
            indent_of(lines[i]) + line_core(lines[i]) + seq![COMMA]
        }) + ending;
        from + line.len() <= all.len() && all.subrange(from, from + line.len()) == line
    }) by {
        lemma_rebuilt_line(lines, ending, i);
        if !is_blank(lines[i]) && i + 1 == lines.len() {
            assert(cleaned_line(lines[i], true) =~= indent_of(lines[i]) + line_core(lines[i]));
        }
    }
}

/// A line that holds the entry with a local identifier mentions that
/// identifier, so a delete takes the line away.
pub proof fn lemma_entry_line_mentions(line: Seq<u8>, local_id: Seq<u8>, value: Seq<u8>)
    requires
        line_holds(line, Some((local_id, value))),
    ensures
        mentions(line, local_id),
{
    let text = trim(line);
    let stripped = strip_trailing_commas(text);
    let core = line_core(line);
    let key = target_key(local_id);
    lemma_entry_text_parts(local_id, value);
    lemma_portal_prefix_plain();
    lemma_comma_run_start(text, text.len() as int);
    lemma_trailing_space_bytes(stripped, 0, stripped.len() as int);
    assert(core.subrange(0, key.len() as int) =~= key);
    assert(text.subrange(0, key.len() as int) =~= core.subrange(0, key.len() as int));
    assert(occurs_at(text, key, 0));
}

/// In a block whose lines hold one entry each, a delete leaves every other
/// entry as it was: before the delete the scanner reads the entries of the
/// lines, in their order; after it, it reads the entries of the lines that
/// do not mention the local identifier, in the same order and with the same
/// identifiers and values. `held` says for each line of the block which
/// entry it holds, if any.
pub proof fn lemma_remove_then_scan(
    raw: Seq<u8>,
    local_id: Seq<u8>,
    held: Seq<Option<(Seq<u8>, Seq<u8>)>>,
)
    requires
        remove_result(raw, local_id) is Ok,
        lines_hold(
            split_lines(raw.subrange(block_span(raw)->Ok_0.0 + 1, block_span(raw)->Ok_0.1)),
            held,
        ),
    ensures
        document_entries(raw) == Ok::<Seq<EntryView>, EditError>(
            held_entries(held, held.len() as int),
        ),
        block_span(remove_result(raw, local_id)->Ok_0) is Ok,
        block_span(remove_result(raw, local_id)->Ok_0)->Ok_0.0 == block_span(raw)->Ok_0.0,
        document_entries(remove_result(raw, local_id)->Ok_0) == Ok::<Seq<EntryView>, EditError>(
            held_entries(
                unmentioned_held(
                    split_lines(
                        raw.subrange(block_span(raw)->Ok_0.0 + 1, block_span(raw)->Ok_0.1),
                    ),
                    held,
                    local_id,
                ),
                unmentioned_held(
                    split_lines(
                        raw.subrange(block_span(raw)->Ok_0.0 + 1, block_span(raw)->Ok_0.1),
                    ),
                    held,
                    local_id,
                ).len() as int,
            ),
        ),
{
    lemma_lined_block_entries(raw, held);
    lemma_lined_block_after_remove(raw, local_id, held);
}

/// In a block whose lines hold one entry each, emptying the block and
/// inserting the entries that were scanned from it gives a document in which
/// the scanner reads one entry for each input, in the order of the inputs,
/// and so the entries that it read before.
pub proof fn lemma_round_trip_of_entry_lines(
    raw: Seq<u8>,
    held: Seq<Option<(Seq<u8>, Seq<u8>)>>,
    inputs: Seq<InputView>,
)
    requires
        block_span(raw) is Ok,
        lines_hold(
            split_lines(raw.subrange(block_span(raw)->Ok_0.0 + 1, block_span(raw)->Ok_0.1)),
            held,
        ),
        restores_entries(inputs, document_entries(raw)->Ok_0),
    ensures
        replace_result(raw, Seq::empty()) is Ok,
        insert_result(replace_result(raw, Seq::empty())->Ok_0, inputs) is Ok,
        document_entries(
            insert_result(replace_result(raw, Seq::empty())->Ok_0, inputs)->Ok_0,
        ) == Ok::<Seq<EntryView>, EditError>(written_entries(template_pairs(inputs))),
        same_entries(
            document_entries(raw)->Ok_0,
            document_entries(
                insert_result(replace_result(raw, Seq::empty())->Ok_0, inputs)->Ok_0,
            )->Ok_0,
        ),
{
    lemma_lined_block_keeps_balanced(raw, held);
    lemma_round_trip_by_insert(raw, inputs);
}

} // verus!
