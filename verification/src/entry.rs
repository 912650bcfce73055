//! The entry scanner and the value decoder.
//!
//! The scanner walks a block with the scan state machine and reports every
//! key that begins with `portal_frag_` together with its string value. Keys
//! that occur more than once are all reported.

use crate::bytes::{
    ascii_bytes, copy_range, find, first_occurrence, has_prefix, literal_bytes, matches_at,
    occurs_at, same_bytes, starts_with, AMPERSAND, COLON, PIPE, QUOTE,
};
use crate::error::EditError;
use crate::locate::{block_span, find_ext_options_block};
use crate::scan::{scan_step, step, Mode, ScanState, Token};
use crate::space::{ascii_space, is_ascii_space, trim, trimmed};
use vstd::prelude::*;
use vstd::slice::slice_subrange;

verus! {

/// How an entry stands among the entries of its block.
#[derive(Clone, Copy, PartialEq, Eq, Debug, Structural)]
pub enum Status {
    /// Neither identifier is shared with another entry.
    Normal,
    /// The local identifier occurs more than once in the block.
    DuplicateLocal,
    /// The local identifier is unique, the gateway identifier is not.
    DuplicateGw,
}

impl Status {
    /// The name under which a status is shown.
    pub open spec fn name(self) -> Seq<char> {
        match self {
            Status::Normal => "normal"@,
            Status::DuplicateLocal => "duplicate_local"@,
            Status::DuplicateGw => "duplicate_gw"@,
        }
    }

    /// The name under which this status is shown.
    pub fn as_str(&self) -> (text: &'static str)
        ensures
            text@ == self.name(),
    {
        match self {
            Status::Normal => "normal",
            Status::DuplicateLocal => "duplicate_local",
            Status::DuplicateGw => "duplicate_gw",
        }
    }
}

/// One key/value occurrence inside a block.
#[derive(Clone, Debug, PartialEq, Eq)]
pub struct MappingEntry {
    /// The key without its `portal_frag_` prefix.
    pub local_id: Vec<u8>,
    /// The identifier that follows `es_tabId=` in the value, if any.
    pub gw_id: Option<Vec<u8>>,
    /// The value as it stands between its quotes.
    pub raw_value: Vec<u8>,
    /// The gateway identifier is present and equals the local identifier.
    pub same_id: bool,
    pub status: Status,
}

/// What a `MappingEntry` holds, as mathematical values.
pub ghost struct EntryView {
    pub local_id: Seq<u8>,
    pub gw_id: Option<Seq<u8>>,
    pub raw_value: Seq<u8>,
    pub same_id: bool,
    pub status: Status,
}

impl View for MappingEntry {
    type V = EntryView;

    open spec fn view(&self) -> EntryView {
        EntryView {
            local_id: self.local_id@,
            gw_id: match self.gw_id {
                Some(id) => Some(id@),
                None => None,
            },
            raw_value: self.raw_value@,
            same_id: self.same_id,
            status: self.status,
        }
    }
}

/// The views of a list of entries, in order.
pub open spec fn entry_views(entries: Seq<MappingEntry>) -> Seq<EntryView> {
    entries.map_values(|e: MappingEntry| e@)
}

/// The prefix that marks a key as a mapping entry.
pub open spec fn portal_prefix() -> Seq<u8> {
    ascii_bytes("portal_frag_"@)
}

/// The prefix that marks a key as a mapping entry.
pub fn portal_prefix_bytes() -> (prefix: &'static [u8])
    ensures
        prefix@ == portal_prefix(),
        prefix@.len() == 12,
{
    proof {
        reveal_strlit("portal_frag_");
    }
    literal_bytes("portal_frag_")
}

/// The opening quote of a key followed by the entry prefix.
pub open spec fn quoted_prefix() -> Seq<u8> {
    ascii_bytes("\"portal_frag_"@)
}

/// The opening quote of a key followed by the entry prefix.
pub fn quoted_prefix_bytes() -> (prefix: &'static [u8])
    ensures
        prefix@ == quoted_prefix(),
        prefix@.len() == 13,
{
    proof {
        reveal_strlit("\"portal_frag_");
    }
    literal_bytes("\"portal_frag_")
}

/// The marker in front of the gateway identifier inside a value.
pub open spec fn gw_marker() -> Seq<u8> {
    ascii_bytes("es_tabId="@)
}

/// The marker in front of the gateway identifier inside a value.
pub fn gw_marker_bytes() -> (marker: &'static [u8])
    ensures
        marker@ == gw_marker(),
        marker@.len() == 9,
{
    proof {
        reveal_strlit("es_tabId=");
    }
    literal_bytes("es_tabId=")
}

/// The state of the scanner right after the quote that opens a string.
pub open spec fn in_string() -> ScanState {
    ScanState { mode: Mode::InString, escape: false }
}

/// The offset of the quote that closes a string, for a scanner that stands
/// inside the string at `at` in state `st`.
pub open spec fn string_end_from(s: Seq<u8>, at: int, st: ScanState) -> Option<int>
    decreases s.len() - at,
{
    if 0 <= at < s.len() {
        let r = step(s, at, st);
        if r.next.mode == Mode::InString {
            string_end_from(s, at + 1, r.next)
        } else {
            Some(at)
        }
    } else {
        None
    }
}

/// The offset of the first unescaped quote at or after `start`: the end of a
/// string whose contents begin at `start`.
pub open spec fn string_end(s: Seq<u8>, start: int) -> Option<int> {
    string_end_from(s, start, in_string())
}

/// The end of a string lies inside the span and holds a quote.
pub proof fn lemma_string_end_from(s: Seq<u8>, at: int, st: ScanState)
    requires
        0 <= at,
        st.mode == Mode::InString,
    ensures
        string_end_from(s, at, st) matches Some(end) ==> at <= end < s.len() && s[end] == QUOTE,
    decreases s.len() - at,
{
    if at < s.len() {
        let r = step(s, at, st);
        if r.next.mode == Mode::InString {
            lemma_string_end_from(s, at + 1, r.next);
        }
    }
}

/// Finds the quote that closes a string whose contents begin at `start`.
pub fn find_string_end(bytes: &[u8], start: usize) -> (r: Option<usize>)
    ensures
        match r {
            Some(end) => string_end(bytes@, start as int) == Some(end as int) && start <= end
                < bytes.len() && bytes[end as int] == QUOTE,
            None => string_end(bytes@, start as int) is None,
        },
{
    let mut at: usize = start;
    let mut st = ScanState { mode: Mode::InString, escape: false };
    while at < bytes.len()
        invariant
            start <= at,
            st.mode == Mode::InString,
            string_end(bytes@, start as int) == string_end_from(bytes@, at as int, st),
        decreases bytes.len() - at,
    {
        let r = scan_step(bytes, at, st);
        match r.next.mode {
            Mode::InString => {},
            _ => {
                return Some(at);
            },
        }
        st = r.next;
        at += 1;
    }
    None
}

/// The first offset at or after `from` that holds neither a colon nor ASCII
/// whitespace; the length of `s` if there is none.
pub open spec fn skip_colon_space(s: Seq<u8>, from: int) -> int
    decreases s.len() - from,
{
    if 0 <= from < s.len() && (s[from] == COLON || is_ascii_space(s[from])) {
        skip_colon_space(s, from + 1)
    } else {
        from
    }
}

/// The local identifier of a key that begins with the entry prefix: the key
/// without that prefix.
pub open spec fn local_id_of(key: Seq<u8>) -> Seq<u8> {
    key.subrange(portal_prefix().len() as int, key.len() as int)
}

/// `b` ends a gateway identifier inside a value.
pub open spec fn is_delimiter(b: u8) -> bool {
    b == AMPERSAND || b == PIPE || b == QUOTE
}

/// The first offset at or after `from` that holds a delimiter; the length of
/// `s` if there is none.
pub open spec fn delimiter_offset(s: Seq<u8>, from: int) -> int
    decreases s.len() - from,
{
    if 0 <= from < s.len() && !is_delimiter(s[from]) {
        delimiter_offset(s, from + 1)
    } else {
        from
    }
}

/// The gateway identifier embedded in a value: what follows the first
/// `es_tabId=` up to the next `&`, `|` or `"`, or to the end of the value,
/// trimmed of whitespace. There is none if the marker is absent or nothing
/// but whitespace follows it.
pub open spec fn gateway_id(value: Seq<u8>) -> Option<Seq<u8>> {
    match first_occurrence(value, gw_marker()) {
        None => None,
        Some(marker_at) => {
            let from = marker_at + gw_marker().len();
            let id = trim(value.subrange(from, delimiter_offset(value, from)));
            if id.len() == 0 {
                None
            } else {
                Some(id)
            }
        },
    }
}

/// Decodes the gateway identifier embedded in a value.
pub fn extract_gw_id(raw_value: &[u8]) -> (r: Option<Vec<u8>>)
    ensures
        match r {
            Some(id) => gateway_id(raw_value@) == Some(id@),
            None => gateway_id(raw_value@) is None,
        },
{
    let marker = gw_marker_bytes();
    let marker_at: usize = match find(raw_value, marker) {
        None => {
            return None;
        },
        Some(at) => at,
    };
    assert(occurs_at(raw_value@, marker@, marker_at as int));
    let len: usize = raw_value.len();
    let from: usize = marker_at + marker.len();
    let mut to: usize = from;
    while to < len && !(raw_value[to] == AMPERSAND || raw_value[to] == PIPE || raw_value[to]
        == QUOTE)
        invariant
            from <= to <= len,
            len == raw_value.len(),
            delimiter_offset(raw_value@, from as int) == delimiter_offset(raw_value@, to as int),
        decreases len - to,
    {
        to += 1;
    }
    let id = trimmed(slice_subrange(raw_value, from, to));
    if id.len() == 0 {
        None
    } else {
        Some(copy_range(id, 0, id.len()))
    }
}

/// The entry whose key string opens with the quote at `start`: the key must
/// begin with the entry prefix and be followed, after colons and whitespace
/// only, by a string value. Anything else is no entry.
pub open spec fn entry_at(s: Seq<u8>, start: int) -> Option<EntryView> {
    match string_end(s, start + 1) {
        None => None,
        Some(key_end) => {
            let key = s.subrange(start + 1, key_end);
            let quote = skip_colon_space(s, key_end + 1);
            if !starts_with(key, portal_prefix()) {
                None
            } else if !(quote < s.len() && s[quote] == QUOTE) {
                None
            } else {
                match string_end(s, quote + 1) {
                    None => None,
                    Some(value_end) => {
                        let raw_value = s.subrange(quote + 1, value_end);
                        let local_id = local_id_of(key);
                        Some(
                            EntryView {
                                local_id,
                                gw_id: gateway_id(raw_value),
                                raw_value,
                                same_id: gateway_id(raw_value) == Some(local_id),
                                status: Status::Normal,
                            },
                        )
                    },
                }
            }
        },
    }
}

/// Reads the entry whose key string opens with the quote at `start`.
pub fn parse_portal_entry_at(content: &[u8], start: usize) -> (r: Option<MappingEntry>)
    ensures
        match r {
            Some(entry) => entry_at(content@, start as int) == Some(entry@),
            None => entry_at(content@, start as int) is None,
        },
{
    let len: usize = content.len();
    if start >= len {
        return None;
    }
    let key_start: usize = start + 1;
    let key_end: usize = match find_string_end(content, key_start) {
        None => {
            return None;
        },
        Some(end) => end,
    };
    let key = slice_subrange(content, key_start, key_end);
    if !has_prefix(key, portal_prefix_bytes()) {
        return None;
    }
    let mut quote: usize = key_end + 1;
    while quote < len && (content[quote] == COLON || ascii_space(content[quote]))
        invariant
            key_end < quote <= len,
            len == content.len(),
            skip_colon_space(content@, key_end + 1) == skip_colon_space(content@, quote as int),
        decreases len - quote,
    {
        quote += 1;
    }
    if quote >= len || content[quote] != QUOTE {
        return None;
    }
    let value_end: usize = match find_string_end(content, quote + 1) {
        None => {
            return None;
        },
        Some(end) => end,
    };
    let raw_value = slice_subrange(content, quote + 1, value_end);
    let local_id = copy_range(key, portal_prefix_bytes().len(), key.len());
    let gw_id = extract_gw_id(raw_value);
    let same_id = match &gw_id {
        Some(id) => same_bytes(id.as_slice(), local_id.as_slice()),
        None => false,
    };
    let value = copy_range(raw_value, 0, raw_value.len());
    assert(value@ == raw_value@);
    let entry = MappingEntry { local_id, gw_id, raw_value: value, same_id, status: Status::Normal };
    assert(entry@.gw_id == gateway_id(raw_value@));
    assert(entry@.same_id == (gateway_id(raw_value@) == Some(entry@.local_id)));
    Some(entry)
}

/// What the scanner reports for the byte at `at`: the entry that begins
/// there, if a string opens there in normal mode with the entry prefix.
pub open spec fn entries_at(s: Seq<u8>, at: int, token: Token) -> Seq<EntryView> {
    if token == Token::StringOpen && occurs_at(s, quoted_prefix(), at) {
        match entry_at(s, at) {
            Some(entry) => seq![entry],
            None => seq![],
        }
    } else {
        seq![]
    }
}

/// The entries that the scanner reports from `at` on, continuing in state
/// `st`, in the order in which their keys begin.
pub open spec fn entries_from(s: Seq<u8>, at: int, st: ScanState) -> Seq<EntryView>
    decreases s.len() - at,
{
    if 0 <= at < s.len() {
        let r = step(s, at, st);
        entries_at(s, at, r.token) + entries_from(s, at + r.width, r.next)
    } else {
        seq![]
    }
}

/// The entries of a block, given as the bytes from its opening brace to its
/// closing brace.
pub open spec fn block_entries(block: Seq<u8>) -> Seq<EntryView> {
    entries_from(block, 0, ScanState::initial())
}

/// The entries of a document's block, or the reason why the document has no
/// block.
pub open spec fn document_entries(raw: Seq<u8>) -> Result<Seq<EntryView>, EditError> {
    match block_span(raw) {
        Ok((open, close)) => Ok(block_entries(raw.subrange(open, close + 1))),
        Err(e) => Err(e),
    }
}

/// Scans a block and appends its entries to `acc`.
pub fn scan_block(block: &[u8], acc: &mut Vec<MappingEntry>)
    ensures
        entry_views(final(acc)@) == entry_views(old(acc)@) + block_entries(block@),
{
    let quoted = quoted_prefix_bytes();
    let mut at: usize = 0;
    let mut st = ScanState::start();
    while at < block.len()
        invariant
            at <= block.len(),
            quoted@ == quoted_prefix(),
            entry_views(old(acc)@) + block_entries(block@) == entry_views(acc@) + entries_from(
                block@,
                at as int,
                st,
            ),
        decreases block.len() - at,
    {
        let r = scan_step(block, at, st);
        let ghost before = acc@;
        match r.token {
            Token::StringOpen => {
                if matches_at(block, quoted, at) {
                    match parse_portal_entry_at(block, at) {
                        Some(entry) => {
                            acc.push(entry);
                            assert(entry_views(acc@) == entry_views(before) + seq![entry@]);
                        },
                        None => {},
                    }
                }
            },
            _ => {},
        }
        assert(entry_views(acc@) == entry_views(before) + entries_at(block@, at as int, r.token));
        st = r.next;
        at += r.width;
    }
}

/// Scans the block of a document and appends its entries to `acc`, each with
/// status `Normal`. Without a block, `acc` stays as it is.
pub fn parse_portal_frag_from_text(raw: &[u8], acc: &mut Vec<MappingEntry>) -> (r: Result<
    (),
    EditError,
>)
    ensures
        match r {
            Ok(_) => document_entries(raw@) is Ok && entry_views(final(acc)@) == entry_views(
                old(acc)@,
            ) + document_entries(raw@)->Ok_0,
            Err(e) => document_entries(raw@) == Err::<Seq<EntryView>, EditError>(e) && final(acc)@
                == old(acc)@,
        },
{
    match find_ext_options_block(raw) {
        Err(e) => Err(e),
        Ok((open, close)) => {
            scan_block(slice_subrange(raw, open, close + 1), acc);
            Ok(())
        },
    }
}

} // verus!
