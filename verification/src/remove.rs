//! Delete: every line of the block that mentions one local identifier goes,
//! and the commas of the lines that stay are put right. The lines that stay
//! keep their indentation and are written with the line ending of the
//! document.

use crate::bytes::{
    append, byte_views, contains, copy_range, has_occurrence, has_prefix, starts_with, COMMA, QUOTE,
    SLASH,
};
use crate::entry::{portal_prefix, portal_prefix_bytes};
use crate::error::EditError;
use crate::layout::{base_indent, detect_base_indent, detect_line_ending, line_ending};
use crate::lines::{line_views, split, split_lines};
use crate::locate::{block_span, find_ext_options_block};
use crate::replace::comment_mark;
use crate::space::{
    blank, indent, indent_of, is_blank, strip_trailing_commas, trim, trim_end, trimmed, trimmed_end,
    without_trailing_commas,
};
use vstd::prelude::*;
use vstd::slice::slice_subrange;

verus! {

/// The key literal of the entry with the given local identifier, quotes and
/// all.
pub open spec fn target_key(local_id: Seq<u8>) -> Seq<u8> {
    seq![QUOTE] + portal_prefix() + local_id + seq![QUOTE]
}

/// The line mentions the local identifier: its text, trimmed, holds the key
/// literal, or it is a line comment that holds the identifier.
pub open spec fn mentions(line: Seq<u8>, local_id: Seq<u8>) -> bool {
    let text = trim(line);
    contains(text, target_key(local_id)) || (starts_with(text, comment_mark()) && contains(
        text,
        local_id,
    ))
}

/// The test that a delete keeps a line by.
pub open spec fn is_unrelated(local_id: Seq<u8>) -> spec_fn(Seq<u8>) -> bool {
    |line: Seq<u8>| !mentions(line, local_id)
}

/// Some line mentions the local identifier.
pub open spec fn is_mentioned(lines: Seq<Seq<u8>>, local_id: Seq<u8>) -> bool {
    exists|i: int| 0 <= i < lines.len() && mentions(#[trigger] lines[i], local_id)
}

/// The lines without the blank lines at their end.
pub open spec fn without_blank_tail(lines: Seq<Seq<u8>>) -> Seq<Seq<u8>>
    decreases lines.len(),
{
    if lines.len() > 0 && is_blank(lines.last()) {
        without_blank_tail(lines.drop_last())
    } else {
        lines
    }
}

/// The text of a line that stays, without its own indentation and without
/// the commas and the whitespace at its end.
pub open spec fn line_core(line: Seq<u8>) -> Seq<u8> {
    trim_end(strip_trailing_commas(trim(line)))
}

/// A line that stays, with its comma put right: its own indentation, its
/// text without the commas and the whitespace at its end, and one comma
/// unless it is the last line. A blank line stays as an empty line.
pub open spec fn cleaned_line(line: Seq<u8>, last: bool) -> Seq<u8> {
    if is_blank(line) {
        seq![]
    } else {
        indent_of(line) + line_core(line) + if last {
            seq![]
        } else {
            seq![COMMA]
        }
    }
}

/// The first `count` lines, cleaned, with the line ending behind each.
pub open spec fn rebuilt_upto(lines: Seq<Seq<u8>>, ending: Seq<u8>, count: int) -> Seq<u8>
    decreases count,
{
    if count <= 0 {
        seq![]
    } else {
        rebuilt_upto(lines, ending, count - 1) + cleaned_line(
            lines[count - 1],
            count == lines.len(),
        ) + ending
    }
}

/// The lines of a block that a delete keeps: those that do not mention the
/// identifier, without the blank lines at their end.
pub open spec fn remaining_lines(interior: Seq<u8>, local_id: Seq<u8>) -> Seq<Seq<u8>> {
    without_blank_tail(split_lines(interior).filter(is_unrelated(local_id)))
}

/// The interior of a block after a delete: the remaining lines, cleaned, each
/// with the line ending of the document behind it, and the base indentation
/// in front of the closing brace. Nothing if no line remains.
pub open spec fn rebuilt_interior(
    interior: Seq<u8>,
    local_id: Seq<u8>,
    ending: Seq<u8>,
    base: Seq<u8>,
) -> Seq<u8> {
    let lines = remaining_lines(interior, local_id);
    if lines.len() == 0 {
        seq![]
    } else {
        rebuilt_upto(lines, ending, lines.len() as int) + base
    }
}

/// The document after the lines that mention `local_id` have left the block
/// from `open` to `close`: the document up to the opening brace, the rebuilt
/// interior, and the document from the closing brace on.
pub open spec fn removed(raw: Seq<u8>, open: int, close: int, local_id: Seq<u8>) -> Seq<u8> {
    raw.subrange(0, open + 1) + rebuilt_interior(
        raw.subrange(open + 1, close),
        local_id,
        line_ending(raw),
        base_indent(raw, open),
    ) + raw.subrange(close, raw.len() as int)
}

/// What a delete of `local_id` makes of a document.
pub open spec fn remove_result(raw: Seq<u8>, local_id: Seq<u8>) -> Result<Seq<u8>, EditError> {
    match block_span(raw) {
        Err(e) => Err(e),
        Ok((open, close)) => if is_mentioned(
            split_lines(raw.subrange(open + 1, close)),
            local_id,
        ) {
            Ok(removed(raw, open, close, local_id))
        } else {
            Err(EditError::KeyNotFound)
        },
    }
}

/// Whether a line mentions the local identifier.
fn line_mentions(line: &[u8], key: &[u8], local_id: &[u8]) -> (r: bool)
    requires
        key@ == target_key(local_id@),
    ensures
        r == mentions(line@, local_id@),
{
    let text = trimmed(line);
    if has_occurrence(text, key) {
        return true;
    }
    let mut mark: Vec<u8> = Vec::new();
    mark.push(SLASH);
    mark.push(SLASH);
    assert(mark@ == comment_mark());
    has_prefix(text, mark.as_slice()) && has_occurrence(text, local_id)
}

/// The lines of `interior` that do not mention the local identifier, and
/// whether any line does.
fn unrelated_lines<'a>(interior: &'a [u8], local_id: &[u8]) -> (r: (Vec<&'a [u8]>, bool))
    ensures
        line_views(r.0@) == split_lines(interior@).filter(is_unrelated(local_id@)),
        r.1 == is_mentioned(split_lines(interior@), local_id@),
{
    let mut key: Vec<u8> = Vec::new();
    key.push(QUOTE);
    append(&mut key, portal_prefix_bytes());
    append(&mut key, local_id);
    key.push(QUOTE);
    assert(key@ == target_key(local_id@));
    let lines = split(interior);
    let ghost all = line_views(lines@);
    let ghost test = is_unrelated(local_id@);
    let mut kept: Vec<&'a [u8]> = Vec::new();
    let mut found = false;
    let mut i: usize = 0;
    while i < lines.len()
        invariant
            i <= lines.len(),
            all == line_views(lines@),
            test == is_unrelated(local_id@),
            key@ == target_key(local_id@),
            line_views(kept@) == all.subrange(0, i as int).filter(test),
            found == is_mentioned(all.subrange(0, i as int), local_id@),
        decreases lines.len() - i,
    {
        let ghost done = all.subrange(0, i as int);
        let ghost next = all.subrange(0, i + 1);
        proof {
            done.lemma_filter_push(all[i as int], test);
            assert(next == done.push(all[i as int]));
        }
        if line_mentions(lines[i], key.as_slice(), local_id) {
            found = true;
            assert(mentions(next[i as int], local_id@));
        } else {
            let ghost before = kept@;
            kept.push(lines[i]);
            assert(line_views(kept@) == line_views(before).push(all[i as int]));
            assert(is_mentioned(next, local_id@) == is_mentioned(done, local_id@)) by {
                if is_mentioned(done, local_id@) {
                    let k = choose|k: int| 0 <= k < done.len() && mentions(done[k], local_id@);
                    assert(mentions(next[k], local_id@));
                }
                if is_mentioned(next, local_id@) {
                    let k = choose|k: int| 0 <= k < next.len() && mentions(next[k], local_id@);
                    assert(mentions(done[k], local_id@));
                }
            }
        }
        i += 1;
    }
    assert(all.subrange(0, lines.len() as int) == all);
    (kept, found)
}

/// Appends the cleaned form of `line` to `out`.
fn push_cleaned_line(out: &mut Vec<u8>, line: &[u8], last: bool)
    ensures
        final(out)@ == old(out)@ + cleaned_line(line@, last),
{
    if !blank(line) {
        append(out, indent(line));
        append(out, trimmed_end(without_trailing_commas(trimmed(line))));
        if !last {
            out.push(COMMA);
        }
    }
    assert(out@ =~= old(out)@ + cleaned_line(line@, last));
}

/// Deletes the entry with the given local identifier from the block of a
/// document and returns the new document. The lines that stay keep their
/// indentation and get the line ending of the document.
pub fn remove_mapping_from_file(raw: &[u8], local_id: &[u8]) -> (r: Result<Vec<u8>, EditError>)
    ensures
        match r {
            Ok(out) => remove_result(raw@, local_id@) == Ok::<Seq<u8>, EditError>(out@),
            Err(e) => remove_result(raw@, local_id@) == Err::<Seq<u8>, EditError>(e),
        },
{
    let (open, close) = match find_ext_options_block(raw) {
        Err(e) => {
            return Err(e);
        },
        Ok(span) => span,
    };
    let ending = detect_line_ending(raw);
    let base = detect_base_indent(raw, open);
    let interior = slice_subrange(raw, open + 1, close);
    let (mut lines, found) = unrelated_lines(interior, local_id);
    if !found {
        return Err(EditError::KeyNotFound);
    }
    let ghost unrelated = line_views(lines@);
    while lines.len() > 0 && blank(lines[lines.len() - 1])
        invariant
            without_blank_tail(unrelated) == without_blank_tail(line_views(lines@)),
        decreases lines.len(),
    {
        let ghost before = line_views(lines@);
        lines.pop();
        assert(line_views(lines@) == before.drop_last());
    }
    let ghost kept = line_views(lines@);
    assert(kept == remaining_lines(interior@, local_id@));

    let mut out: Vec<u8> = Vec::new();
    append(&mut out, slice_subrange(raw, 0, open + 1));
    let ghost head = out@;
    let count: usize = lines.len();
    let mut i: usize = 0;
    while i < count
        invariant
            i <= count,
            count == lines.len(),
            kept == line_views(lines@),
            out@ == head + rebuilt_upto(kept, ending@, i as int),
        decreases count - i,
    {
        push_cleaned_line(&mut out, lines[i], i + 1 == count);
        append(&mut out, ending.as_slice());
        i += 1;
    }
    if count > 0 {
        append(&mut out, base.as_slice());
    }
    append(&mut out, slice_subrange(raw, close, raw.len()));
    assert(interior@ == raw@.subrange(open + 1, close as int));
    assert(is_mentioned(split_lines(raw@.subrange(open + 1, close as int)), local_id@));
    assert(out@ == removed(raw@, open as int, close as int, local_id@));
    Ok(out)
}

/// What a list of deletes, made one after the other, leaves of a document,
/// and for each of the first `count` identifiers whether its delete went
/// through. A delete that fails leaves the document as it was.
pub open spec fn batch_removed(raw: Seq<u8>, ids: Seq<Seq<u8>>, count: int) -> (
    Seq<u8>,
    Seq<bool>,
)
    decreases count,
{
    if count <= 0 {
        (raw, seq![])
    } else {
        let (text, done) = batch_removed(raw, ids, count - 1);
        match remove_result(text, ids[count - 1]) {
            Ok(next) => (next, done.push(true)),
            Err(_) => (text, done.push(false)),
        }
    }
}

/// The outcome of a list of deletes on one document.
pub struct BatchRemoval {
    /// The document after the deletes that went through.
    pub text: Vec<u8>,
    /// For each identifier of the request, whether its delete went through.
    pub removed: Vec<bool>,
}

/// Deletes the entries with the given local identifiers from the block of a
/// document, one after the other. A delete that fails is noted and does not
/// stop the others.
pub fn remove_mappings_from_file(raw: &[u8], local_ids: &[Vec<u8>]) -> (r: BatchRemoval)
    ensures
        (r.text@, r.removed@) == batch_removed(
            raw@,
            byte_views(local_ids@),
            local_ids@.len() as int,
        ),
{
    let ghost ids = byte_views(local_ids@);
    let mut text = copy_range(raw, 0, raw.len());
    assert(text@ == raw@);
    let mut removed: Vec<bool> = Vec::new();
    let mut i: usize = 0;
    while i < local_ids.len()
        invariant
            i <= local_ids.len(),
            ids == byte_views(local_ids@),
            (text@, removed@) == batch_removed(raw@, ids, i as int),
        decreases local_ids.len() - i,
    {
        match remove_mapping_from_file(text.as_slice(), local_ids[i].as_slice()) {
            Ok(next) => {
                text = next;
                removed.push(true);
            },
            Err(_) => {
                removed.push(false);
            },
        }
        i += 1;
    }
    BatchRemoval { text, removed }
}

} // verus!
