//! Insert: new entries go in front of the closing brace of the block. Only the
//! blank bytes in front of that brace are rewritten.

use crate::bytes::{append, byte_views, copy_range, same_bytes, COMMA, SPACE};
use crate::entry::{
    document_entries, entry_views, parse_portal_frag_from_text, EntryView, MappingEntry,
};
use crate::error::EditError;
use crate::layout::{
    base_indent, detect_base_indent, detect_line_ending, entry_indent, entry_lines,
    entry_lines_upto, format_entry, formatted, input_views, line_ending, push_entry_line, InputView,
    MappingInput,
};
use crate::locate::{block_span, find_ext_options_block};
use crate::space::{blank, blank_tail_start, is_blank, trim_trailing_whitespace_start};
use vstd::prelude::*;
use vstd::slice::slice_subrange;

verus! {

/// The texts of the new entries for a list of inputs, in order.
pub open spec fn input_texts(inputs: Seq<InputView>) -> Seq<Seq<u8>> {
    inputs.map_values(|input: InputView| formatted(input))
}

/// The comma that closes the last existing entry of a block, if the block
/// holds anything but whitespace.
pub open spec fn separator(interior: Seq<u8>) -> Seq<u8> {
    if is_blank(interior) {
        seq![]
    } else {
        seq![COMMA]
    }
}

/// The offset up to which an insert keeps the document as it is: where the
/// blank bytes in front of the closing brace begin.
pub open spec fn kept_until(raw: Seq<u8>, close: int) -> int {
    blank_tail_start(raw.subrange(0, close))
}

/// The document after the entry texts have been inserted into the block from
/// `open` to `close`: the document up to the last byte that is not blank, a
/// comma if the block held anything, a line ending, the new lines one level
/// deeper than the block, the base indentation, and the document from the
/// closing brace on.
pub open spec fn inserted(raw: Seq<u8>, open: int, close: int, texts: Seq<Seq<u8>>) -> Seq<u8> {
    raw.subrange(0, kept_until(raw, close)) + separator(raw.subrange(open + 1, close))
        + line_ending(raw) + entry_lines(entry_indent(raw, open), line_ending(raw), texts)
        + base_indent(raw, open) + raw.subrange(close, raw.len() as int)
}

/// What an insert of `inputs` makes of a document. An insert of nothing
/// leaves the document as it is.
pub open spec fn insert_result(raw: Seq<u8>, inputs: Seq<InputView>) -> Result<
    Seq<u8>,
    EditError,
> {
    match block_span(raw) {
        Ok((open, close)) => if inputs.len() == 0 {
            Ok(raw)
        } else {
            Ok(inserted(raw, open, close, input_texts(inputs)))
        },
        Err(e) => Err(e),
    }
}

/// Inserts one entry for each input into the block of a document and returns
/// the new document; without an input the document stays as it is. The
/// caller has made sure that none of the local identifiers exists in the
/// block.
pub fn insert_entries(raw: &[u8], entries: &[MappingInput]) -> (r: Result<Vec<u8>, EditError>)
    ensures
        match r {
            Ok(out) => insert_result(raw@, input_views(entries@)) == Ok::<Seq<u8>, EditError>(
                out@,
            ),
            Err(e) => insert_result(raw@, input_views(entries@)) == Err::<Seq<u8>, EditError>(e),
        },
{
    let (open, close) = match find_ext_options_block(raw) {
        Err(e) => {
            return Err(e);
        },
        Ok(span) => span,
    };
    if entries.len() == 0 {
        let same = copy_range(raw, 0, raw.len());
        assert(same@ == raw@);
        return Ok(same);
    }
    let ending = detect_line_ending(raw);
    let has_existing = !blank(slice_subrange(raw, open + 1, close));
    let base = detect_base_indent(raw, open);
    let mut deeper: Vec<u8> = Vec::new();
    append(&mut deeper, base.as_slice());
    deeper.push(SPACE);
    deeper.push(SPACE);
    assert(deeper@ == entry_indent(raw@, open as int));
    let keep: usize = trim_trailing_whitespace_start(slice_subrange(raw, 0, close));

    let mut out: Vec<u8> = Vec::new();
    append(&mut out, slice_subrange(raw, 0, keep));
    if has_existing {
        out.push(COMMA);
    }
    append(&mut out, ending.as_slice());
    let ghost head = out@;
    let ghost texts = input_texts(input_views(entries@));
    assert(head == raw@.subrange(0, kept_until(raw@, close as int)) + separator(
        raw@.subrange(open + 1, close as int),
    ) + line_ending(raw@));
    let mut i: usize = 0;
    while i < entries.len()
        invariant
            i <= entries.len(),
            texts == input_texts(input_views(entries@)),
            texts.len() == entries.len(),
            out@ == head + entry_lines_upto(deeper@, ending@, texts, i as int),
        decreases entries.len() - i,
    {
        let text = format_entry(&entries[i]);
        assert(text@ == texts[i as int]);
        push_entry_line(
            &mut out,
            deeper.as_slice(),
            ending.as_slice(),
            text.as_slice(),
            i + 1 == entries.len(),
        );
        i += 1;
    }
    append(&mut out, base.as_slice());
    append(&mut out, slice_subrange(raw, close, raw.len()));
    Ok(out)
}

/// One of the entries carries the local identifier `id`.
pub open spec fn holds_local_id(entries: Seq<EntryView>, id: Seq<u8>) -> bool {
    exists|i: int| 0 <= i < entries.len() && (#[trigger] entries[i]).local_id == id
}

/// The test for inputs whose local identifier none of the entries carries.
pub open spec fn is_new_to(entries: Seq<EntryView>) -> spec_fn(InputView) -> bool {
    |input: InputView| !holds_local_id(entries, input.local_id)
}

/// The test for inputs whose local identifier one of the entries carries.
pub open spec fn is_known_to(entries: Seq<EntryView>) -> spec_fn(InputView) -> bool {
    |input: InputView| holds_local_id(entries, input.local_id)
}

/// The local identifiers of a list of inputs, in order.
pub open spec fn local_ids(inputs: Seq<InputView>) -> Seq<Seq<u8>> {
    inputs.map_values(|input: InputView| input.local_id)
}

/// The inputs of a request, told apart by whether the block already holds
/// their local identifier.
pub struct InsertPlan {
    /// The inputs that are new to the block, in the order of the request.
    pub pending: Vec<MappingInput>,
    /// The local identifiers that the block already holds, in the order of
    /// the request.
    pub duplicate_ids: Vec<Vec<u8>>,
}

/// Whether one of the entries carries the local identifier `id`.
fn has_local_id(existing: &Vec<MappingEntry>, id: &[u8]) -> (r: bool)
    ensures
        r == holds_local_id(entry_views(existing@), id@),
{
    let mut i: usize = 0;
    while i < existing.len()
        invariant
            i <= existing.len(),
            forall|k: int| 0 <= k < i ==> (#[trigger] entry_views(existing@)[k]).local_id != id@,
        decreases existing.len() - i,
    {
        if same_bytes(existing[i].local_id.as_slice(), id) {
            assert(entry_views(existing@)[i as int].local_id == id@);
            return true;
        }
        i += 1;
    }
    false
}

/// Tells the inputs that are new to a block from those whose local identifier
/// one of its entries carries.
pub fn plan_insert(existing: &Vec<MappingEntry>, entries: &[MappingInput]) -> (plan: InsertPlan)
    ensures
        input_views(plan.pending@) == input_views(entries@).filter(
            is_new_to(entry_views(existing@)),
        ),
        byte_views(plan.duplicate_ids@) == local_ids(
            input_views(entries@).filter(is_known_to(entry_views(existing@))),
        ),
{
    let ghost inputs = input_views(entries@);
    let ghost new = is_new_to(entry_views(existing@));
    let ghost known = is_known_to(entry_views(existing@));
    let mut pending: Vec<MappingInput> = Vec::new();
    let mut duplicate_ids: Vec<Vec<u8>> = Vec::new();
    let mut i: usize = 0;
    while i < entries.len()
        invariant
            i <= entries.len(),
            inputs == input_views(entries@),
            new == is_new_to(entry_views(existing@)),
            known == is_known_to(entry_views(existing@)),
            input_views(pending@) == inputs.subrange(0, i as int).filter(new),
            byte_views(duplicate_ids@) == local_ids(inputs.subrange(0, i as int).filter(known)),
        decreases entries.len() - i,
    {
        let ghost done = inputs.subrange(0, i as int);
        proof {
            done.lemma_filter_push(inputs[i as int], new);
            done.lemma_filter_push(inputs[i as int], known);
            assert(inputs.subrange(0, i + 1) == done.push(inputs[i as int]));
        }
        let entry = &entries[i];
        let local_id = copy_range(entry.local_id.as_slice(), 0, entry.local_id.len());
        assert(local_id@ == entry.local_id@);
        assert(inputs[i as int] == entry@);
        if has_local_id(existing, entry.local_id.as_slice()) {
            let ghost before = byte_views(duplicate_ids@);
            duplicate_ids.push(local_id);
            assert(byte_views(duplicate_ids@) =~= before.push(inputs[i as int].local_id));
            assert(local_ids(done.filter(known).push(inputs[i as int])) == local_ids(
                done.filter(known),
            ).push(inputs[i as int].local_id));
        } else {
            let ghost before = pending@;
            let gw_id = copy_range(entry.gw_id.as_slice(), 0, entry.gw_id.len());
            assert(gw_id@ == entry.gw_id@);
            pending.push(MappingInput { local_id, gw_id });
            assert(input_views(pending@) =~= input_views(before).push(inputs[i as int]));
        }
        i += 1;
    }
    assert(inputs.subrange(0, entries.len() as int) == inputs);
    InsertPlan { pending, duplicate_ids }
}

/// What an insert makes of a document when the inputs whose local identifier
/// the block already holds are left out: it fails with `DuplicateLocalId` if
/// there are inputs and that leaves none of them.
pub open spec fn insert_new_result(raw: Seq<u8>, inputs: Seq<InputView>) -> Result<
    Seq<u8>,
    EditError,
> {
    match document_entries(raw) {
        Err(e) => Err(e),
        Ok(existing) => {
            let pending = inputs.filter(is_new_to(existing));
            if inputs.len() > 0 && pending.len() == 0 {
                Err(EditError::DuplicateLocalId)
            } else {
                insert_result(raw, pending)
            }
        },
    }
}

/// Inserts one entry for each input whose local identifier is new to the
/// block of the document, and returns the new document.
pub fn insert_new_entries(raw: &[u8], entries: &[MappingInput]) -> (r: Result<Vec<u8>, EditError>)
    ensures
        match r {
            Ok(out) => insert_new_result(raw@, input_views(entries@)) == Ok::<
                Seq<u8>,
                EditError,
            >(out@),
            Err(e) => insert_new_result(raw@, input_views(entries@)) == Err::<
                Seq<u8>,
                EditError,
            >(e),
        },
{
    let mut existing: Vec<MappingEntry> = Vec::new();
    match parse_portal_frag_from_text(raw, &mut existing) {
        Err(e) => {
            return Err(e);
        },
        Ok(_) => {},
    }
    assert(entry_views(existing@) == document_entries(raw@)->Ok_0);
    let plan = plan_insert(&existing, entries);
    if entries.len() > 0 && plan.pending.len() == 0 {
        return Err(EditError::DuplicateLocalId);
    }
    insert_entries(raw, plan.pending.as_slice())
}

} // verus!
