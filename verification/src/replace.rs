//! Replace: every line of the block that holds a prefixed key goes, whether
//! the key is live or commented out, and the entries of a mapping take their
//! place. All other lines stay as they stood, with their indentation.

use crate::bytes::{append, contains, has_occurrence, has_prefix, starts_with, COMMA, SLASH, SPACE};
use crate::entry::{portal_prefix, portal_prefix_bytes, quoted_prefix, quoted_prefix_bytes};
use crate::error::EditError;
use crate::layout::{
    base_indent, detect_base_indent, detect_line_ending, entry_indent, entry_lines,
    entry_lines_upto, entry_text, format_pair, line_ending, push_entry_line,
};
use crate::lines::{join, join_lines, line_views, split, split_lines};
use crate::locate::{block_span, find_ext_options_block};
use crate::space::{trim, trim_end, trimmed, trimmed_end};
use crate::table::MappingTable;
use vstd::prelude::*;
use vstd::slice::slice_subrange;

verus! {

/// The two slashes that open a line comment.
pub open spec fn comment_mark() -> Seq<u8> {
    seq![SLASH, SLASH]
}

/// The line holds a prefixed key: its text, trimmed, holds a quote followed
/// by the entry prefix, or it is a line comment that holds the entry prefix.
pub open spec fn is_entry_line(line: Seq<u8>) -> bool {
    let text = trim(line);
    contains(text, quoted_prefix()) || (starts_with(text, comment_mark()) && contains(
        text,
        portal_prefix(),
    ))
}

/// The test that a replacement keeps a line by.
pub open spec fn is_other_line() -> spec_fn(Seq<u8>) -> bool {
    |line: Seq<u8>| !is_entry_line(line)
}

/// What a replacement keeps of the interior of a block: the lines without a
/// prefixed key, as they stood, up to the last byte that is no whitespace.
pub open spec fn kept_text(interior: Seq<u8>) -> Seq<u8> {
    trim_end(join_lines(split_lines(interior).filter(is_other_line())))
}

/// The kept text made ready for entries to follow: a comma behind it if it
/// holds anything and does not end in one, and a line ending.
pub open spec fn closed_text(kept: Seq<u8>, ending: Seq<u8>) -> Seq<u8> {
    if kept.len() == 0 || kept.last() == COMMA {
        kept + ending
    } else {
        kept + seq![COMMA] + ending
    }
}

/// The entry texts for the pairs of a mapping, in order.
pub open spec fn pair_texts(pairs: Seq<(Seq<u8>, Seq<u8>)>) -> Seq<Seq<u8>> {
    pairs.map_values(|pair: (Seq<u8>, Seq<u8>)| entry_text(pair.0, pair.1))
}

/// The document after the prefixed entries of the block from `open` to
/// `close` have been replaced by `pairs`: the document up to the opening
/// brace, the kept lines as they stood with a comma and a line ending behind
/// them, one line for each pair, the base indentation, and the document from
/// the closing brace on.
pub open spec fn replaced(
    raw: Seq<u8>,
    open: int,
    close: int,
    pairs: Seq<(Seq<u8>, Seq<u8>)>,
) -> Seq<u8> {
    raw.subrange(0, open + 1) + closed_text(
        kept_text(raw.subrange(open + 1, close)),
        line_ending(raw),
    ) + entry_lines(entry_indent(raw, open), line_ending(raw), pair_texts(pairs)) + base_indent(
        raw,
        open,
    ) + raw.subrange(close, raw.len() as int)
}

/// What a replacement by `pairs` makes of a document.
pub open spec fn replace_result(raw: Seq<u8>, pairs: Seq<(Seq<u8>, Seq<u8>)>) -> Result<
    Seq<u8>,
    EditError,
> {
    match block_span(raw) {
        Ok((open, close)) => Ok(replaced(raw, open, close, pairs)),
        Err(e) => Err(e),
    }
}

/// Whether a line holds a prefixed key.
pub fn holds_prefixed_key(line: &[u8]) -> (r: bool)
    ensures
        r == is_entry_line(line@),
{
    let text = trimmed(line);
    if has_occurrence(text, quoted_prefix_bytes()) {
        return true;
    }
    let mut mark: Vec<u8> = Vec::new();
    mark.push(SLASH);
    mark.push(SLASH);
    assert(mark@ == comment_mark());
    has_prefix(text, mark.as_slice()) && has_occurrence(text, portal_prefix_bytes())
}

/// The lines of `interior` that hold no prefixed key.
fn other_lines<'a>(interior: &'a [u8]) -> (kept: Vec<&'a [u8]>)
    ensures
        line_views(kept@) == split_lines(interior@).filter(is_other_line()),
{
    let lines = split(interior);
    let ghost all = line_views(lines@);
    let mut kept: Vec<&'a [u8]> = Vec::new();
    let mut i: usize = 0;
    while i < lines.len()
        invariant
            i <= lines.len(),
            all == line_views(lines@),
            line_views(kept@) == all.subrange(0, i as int).filter(is_other_line()),
        decreases lines.len() - i,
    {
        proof {
            all.subrange(0, i as int).lemma_filter_push(all[i as int], is_other_line());
            assert(all.subrange(0, i + 1) == all.subrange(0, i as int).push(all[i as int]));
        }
        if !holds_prefixed_key(lines[i]) {
            let ghost before = kept@;
            kept.push(lines[i]);
            assert(line_views(kept@) == line_views(before).push(all[i as int]));
        }
        i += 1;
    }
    assert(all.subrange(0, lines.len() as int) == all);
    kept
}

/// Replaces the prefixed entries of the block of a document by the pairs of
/// `mappings`, written in ascending order of their local identifiers, and
/// returns the new document.
pub fn replace_mappings_in_file(raw: &[u8], mappings: &MappingTable) -> (r: Result<
    Vec<u8>,
    EditError,
>)
    ensures
        match r {
            Ok(out) => replace_result(raw@, mappings@) == Ok::<Seq<u8>, EditError>(out@),
            Err(e) => replace_result(raw@, mappings@) == Err::<Seq<u8>, EditError>(e),
        },
{
    let (open, close) = match find_ext_options_block(raw) {
        Err(e) => {
            return Err(e);
        },
        Ok(span) => span,
    };
    let ending = detect_line_ending(raw);
    let base = detect_base_indent(raw, open);
    let mut deeper: Vec<u8> = Vec::new();
    append(&mut deeper, base.as_slice());
    deeper.push(SPACE);
    deeper.push(SPACE);
    assert(deeper@ == entry_indent(raw@, open as int));

    let kept_lines = other_lines(slice_subrange(raw, open + 1, close));
    let joined = join(&kept_lines);
    let kept = trimmed_end(joined.as_slice());
    assert(kept@ == kept_text(raw@.subrange(open + 1, close as int)));

    let mut out: Vec<u8> = Vec::new();
    append(&mut out, slice_subrange(raw, 0, open + 1));
    append(&mut out, kept);
    if kept.len() > 0 && kept[kept.len() - 1] != COMMA {
        out.push(COMMA);
    }
    append(&mut out, ending.as_slice());
    let ghost head = out@;
    assert(head == raw@.subrange(0, open + 1) + closed_text(kept@, ending@));
    let ghost texts = pair_texts(mappings@);
    let count: usize = mappings.len();
    let mut i: usize = 0;
    while i < count
        invariant
            i <= count,
            count == mappings@.len(),
            texts == pair_texts(mappings@),
            out@ == head + entry_lines_upto(deeper@, ending@, texts, i as int),
        decreases count - i,
    {
        let text = format_pair(mappings.key(i), mappings.value(i));
        assert(text@ == texts[i as int]);
        push_entry_line(
            &mut out,
            deeper.as_slice(),
            ending.as_slice(),
            text.as_slice(),
            i + 1 == count,
        );
        i += 1;
    }
    append(&mut out, base.as_slice());
    append(&mut out, slice_subrange(raw, close, raw.len()));
    Ok(out)
}

} // verus!
