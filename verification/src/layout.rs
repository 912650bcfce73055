//! What the editor reads off a document before it rewrites a block: the line
//! ending in use and the indentation of the block. Also the text of one
//! formatted entry.

use crate::bytes::{
    append, ascii_bytes, contains, has_occurrence, literal_bytes, CARRIAGE_RETURN, COMMA, NEWLINE,
    QUOTE, SPACE,
};
use crate::entry::portal_prefix;
use crate::space::{indent, indent_of};
use vstd::prelude::*;
use vstd::slice::slice_subrange;

verus! {

/// A carriage return followed by a line feed.
pub open spec fn crlf() -> Seq<u8> {
    seq![CARRIAGE_RETURN, NEWLINE]
}

/// The line ending of a document: `\r\n` if that pair occurs anywhere in it,
/// else `\n`.
pub open spec fn line_ending(raw: Seq<u8>) -> Seq<u8> {
    if contains(raw, crlf()) {
        crlf()
    } else {
        seq![NEWLINE]
    }
}

/// Detects the line ending of a document.
pub fn detect_line_ending(raw: &[u8]) -> (ending: Vec<u8>)
    ensures
        ending@ == line_ending(raw@),
{
    let mut pair: Vec<u8> = Vec::new();
    pair.push(CARRIAGE_RETURN);
    pair.push(NEWLINE);
    assert(pair@ == crlf());
    if has_occurrence(raw, pair.as_slice()) {
        pair
    } else {
        let mut single: Vec<u8> = Vec::new();
        single.push(NEWLINE);
        assert(single@ == seq![NEWLINE]);
        single
    }
}

/// The offset at which the line that holds the byte before `end` begins: right
/// after the last line feed below `end`, or zero.
pub open spec fn line_start(s: Seq<u8>, end: int) -> int
    decreases end,
{
    if 0 < end <= s.len() && s[end - 1] != NEWLINE {
        line_start(s, end - 1)
    } else {
        end
    }
}

/// A line begins at or below the offset it was searched from.
pub proof fn lemma_line_start_bounds(s: Seq<u8>, end: int)
    requires
        0 <= end <= s.len(),
    ensures
        0 <= line_start(s, end) <= end,
    decreases end,
{
    if 0 < end && s[end - 1] != NEWLINE {
        lemma_line_start_bounds(s, end - 1);
    }
}

/// The base indentation of a block: the whitespace characters at the start of
/// the line that holds its opening brace.
pub open spec fn base_indent(content: Seq<u8>, block_start: int) -> Seq<u8> {
    indent_of(content.subrange(line_start(content, block_start), block_start))
}

/// The indentation of an entry: one level, two spaces, deeper than the block.
pub open spec fn entry_indent(content: Seq<u8>, block_start: int) -> Seq<u8> {
    base_indent(content, block_start) + seq![SPACE, SPACE]
}

/// Detects the base indentation of the block that opens at `block_start`.
pub fn detect_base_indent(content: &[u8], block_start: usize) -> (r: Vec<u8>)
    requires
        block_start <= content.len(),
    ensures
        r@ == base_indent(content@, block_start as int),
{
    let mut from: usize = block_start;
    while from > 0 && content[from - 1] != NEWLINE
        invariant
            from <= block_start <= content.len(),
            line_start(content@, block_start as int) == line_start(content@, from as int),
        decreases from,
    {
        from -= 1;
    }
    let mut out: Vec<u8> = Vec::new();
    append(&mut out, indent(slice_subrange(content, from, block_start)));
    out
}

/// A gateway identifier and the local identifier it is to be mapped from.
#[derive(Clone, Debug, PartialEq, Eq)]
pub struct MappingInput {
    pub local_id: Vec<u8>,
    pub gw_id: Vec<u8>,
}

/// What a `MappingInput` holds, as mathematical values.
pub ghost struct InputView {
    pub local_id: Seq<u8>,
    pub gw_id: Seq<u8>,
}

impl View for MappingInput {
    type V = InputView;

    open spec fn view(&self) -> InputView {
        InputView { local_id: self.local_id@, gw_id: self.gw_id@ }
    }
}

/// The views of a list of inputs, in order.
pub open spec fn input_views(inputs: Seq<MappingInput>) -> Seq<InputView> {
    inputs.map_values(|e: MappingInput| e@)
}

/// The part of the value template in front of the gateway identifier.
pub open spec fn template_head() -> Seq<u8> {
    ascii_bytes("com.ipanel.join.gw_ui_sdk.GwPortalFragment|intent://?es_tabId="@)
}

/// The part of the value template after the gateway identifier.
pub open spec fn template_tail() -> Seq<u8> {
    ascii_bytes("&es_title=&es_focusStartColor=&es_focusEndColor=&es_focusImg="@)
}

/// The value of a new entry: the template with the gateway identifier in the
/// place of `{id}`.
pub open spec fn template_value(gw_id: Seq<u8>) -> Seq<u8> {
    template_head() + gw_id + template_tail()
}

/// The text of an entry: the prefixed key and the value, each in quotes, with
/// a colon between them.
pub open spec fn entry_text(local_id: Seq<u8>, value: Seq<u8>) -> Seq<u8> {
    seq![QUOTE] + portal_prefix() + local_id + ascii_bytes("\":\""@) + value + seq![QUOTE]
}

/// The text of a new entry for `input`.
pub open spec fn formatted(input: InputView) -> Seq<u8> {
    entry_text(input.local_id, template_value(input.gw_id))
}

/// Writes the text of an entry with the given key suffix and value.
pub fn format_pair(local_id: &[u8], value: &[u8]) -> (text: Vec<u8>)
    ensures
        text@ == entry_text(local_id@, value@),
{
    proof {
        reveal_strlit("portal_frag_");
        reveal_strlit("\":\"");
    }
    let mut text: Vec<u8> = Vec::new();
    text.push(QUOTE);
    append(&mut text, literal_bytes("portal_frag_"));
    append(&mut text, local_id);
    append(&mut text, literal_bytes("\":\""));
    append(&mut text, value);
    text.push(QUOTE);
    assert(text@ =~= entry_text(local_id@, value@));
    text
}

/// Writes the text of a new entry: the gateway identifier goes into the value
/// template, the local identifier behind the key prefix.
pub fn format_entry(entry: &MappingInput) -> (text: Vec<u8>)
    ensures
        text@ == formatted(entry@),
{
    proof {
        reveal_strlit("com.ipanel.join.gw_ui_sdk.GwPortalFragment|intent://?es_tabId=");
        reveal_strlit("&es_title=&es_focusStartColor=&es_focusEndColor=&es_focusImg=");
    }
    let mut value: Vec<u8> = Vec::new();
    append(
        &mut value,
        literal_bytes("com.ipanel.join.gw_ui_sdk.GwPortalFragment|intent://?es_tabId="),
    );
    append(&mut value, entry.gw_id.as_slice());
    append(
        &mut value,
        literal_bytes("&es_title=&es_focusStartColor=&es_focusEndColor=&es_focusImg="),
    );
    format_pair(entry.local_id.as_slice(), value.as_slice())
}

/// One line of a block: the entry text behind `indent`, a comma unless the
/// entry is the last of its block, and the line ending.
pub open spec fn entry_line(indent: Seq<u8>, ending: Seq<u8>, text: Seq<u8>, last: bool) -> Seq<
    u8,
> {
    indent + text + (if last {
        seq![]
    } else {
        seq![COMMA]
    }) + ending
}

/// The first `count` lines for a list of entry texts.
pub open spec fn entry_lines_upto(
    indent: Seq<u8>,
    ending: Seq<u8>,
    texts: Seq<Seq<u8>>,
    count: int,
) -> Seq<u8>
    decreases count,
{
    if count <= 0 {
        seq![]
    } else {
        entry_lines_upto(indent, ending, texts, count - 1) + entry_line(
            indent,
            ending,
            texts[count - 1],
            count == texts.len(),
        )
    }
}

/// The lines for a list of entry texts: every text on a line of its own behind
/// `indent`, with a comma after each but the last.
pub open spec fn entry_lines(indent: Seq<u8>, ending: Seq<u8>, texts: Seq<Seq<u8>>) -> Seq<u8> {
    entry_lines_upto(indent, ending, texts, texts.len() as int)
}

/// Appends one line of a block to `out`.
pub fn push_entry_line(out: &mut Vec<u8>, indent: &[u8], ending: &[u8], text: &[u8], last: bool)
    ensures
        final(out)@ == old(out)@ + entry_line(indent@, ending@, text@, last),
{
    append(out, indent);
    append(out, text);
    if !last {
        out.push(COMMA);
    }
    append(out, ending);
    assert(out@ =~= old(out)@ + entry_line(indent@, ending@, text@, last));
}

} // verus!
