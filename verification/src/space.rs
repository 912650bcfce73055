//! The three notions of whitespace the library works with, and trimming.
//!
//! * ASCII whitespace separates a key, its colon and its value.
//! * Blank bytes (space, tab, line feed, carriage return) are what an insert
//!   rewrites in front of the closing brace.
//! * Whitespace characters are the code points that Unicode lists as
//!   `White_Space`, in their UTF-8 encoding; lines are trimmed of these.

use crate::bytes::{
    contains, lemma_occurrence_bytes, lemma_occurs_in_part, lemma_occurs_inside, occurs_at,
    CARRIAGE_RETURN, COMMA, FORM_FEED, NEWLINE, QUOTE, SPACE, TAB, VERTICAL_TAB,
};
use vstd::prelude::*;
use vstd::slice::slice_subrange;

verus! {

/// ASCII whitespace, as it may stand between a key, its colon and its value:
/// space, tab, line feed, form feed and carriage return.
pub open spec fn is_ascii_space(b: u8) -> bool {
    b == SPACE || b == TAB || b == NEWLINE || b == FORM_FEED || b == CARRIAGE_RETURN
}

/// Whether `b` is one of the five ASCII whitespace bytes.
pub fn ascii_space(b: u8) -> (r: bool)
    ensures
        r == is_ascii_space(b),
{
    b == SPACE || b == TAB || b == NEWLINE || b == FORM_FEED || b == CARRIAGE_RETURN
}

/// The first offset at or after `from` that holds no ASCII whitespace; the
/// length of `s` if there is none.
pub open spec fn skip_ascii_space(s: Seq<u8>, from: int) -> int
    decreases s.len() - from,
{
    if 0 <= from < s.len() && is_ascii_space(s[from]) {
        skip_ascii_space(s, from + 1)
    } else {
        from
    }
}

/// Skipping stops inside the span, on a byte that is no whitespace, and
/// passes over whitespace only.
pub proof fn lemma_skip_ascii_space(s: Seq<u8>, from: int)
    requires
        0 <= from <= s.len(),
    ensures
        from <= skip_ascii_space(s, from) <= s.len(),
        skip_ascii_space(s, from) < s.len() ==> !is_ascii_space(s[skip_ascii_space(s, from)]),
        forall|k: int| from <= k < skip_ascii_space(s, from) ==> is_ascii_space(#[trigger] s[k]),
    decreases s.len() - from,
{
    if from < s.len() && is_ascii_space(s[from]) {
        lemma_skip_ascii_space(s, from + 1);
    }
}

/// Skips ASCII whitespace from `from` on.
pub fn skip_space(bytes: &[u8], from: usize) -> (at: usize)
    requires
        from <= bytes.len(),
    ensures
        at == skip_ascii_space(bytes@, from as int),
        from <= at <= bytes.len(),
{
    let mut at: usize = from;
    while at < bytes.len() && ascii_space(bytes[at])
        invariant
            from <= at <= bytes.len(),
            skip_ascii_space(bytes@, from as int) == skip_ascii_space(bytes@, at as int),
        decreases bytes.len() - at,
    {
        at += 1;
    }
    at
}

/// The blank bytes: space, tab, line feed and carriage return.
pub open spec fn is_blank_byte(b: u8) -> bool {
    b == SPACE || b == TAB || b == NEWLINE || b == CARRIAGE_RETURN
}

/// The offset at which the run of blank bytes that ends right before `end`
/// begins.
pub open spec fn blank_run_start(s: Seq<u8>, end: int) -> int
    decreases end,
{
    if 0 < end <= s.len() && is_blank_byte(s[end - 1]) {
        blank_run_start(s, end - 1)
    } else {
        end
    }
}

/// The offset at which the run of blank bytes that ends `s` begins.
pub open spec fn blank_tail_start(s: Seq<u8>) -> int {
    blank_run_start(s, s.len() as int)
}

/// A run of blank bytes begins inside the span, right after a byte that is
/// not blank, and holds blank bytes only.
pub proof fn lemma_blank_run_start(s: Seq<u8>, end: int)
    requires
        0 <= end <= s.len(),
    ensures
        0 <= blank_run_start(s, end) <= end,
        blank_run_start(s, end) > 0 ==> !is_blank_byte(s[blank_run_start(s, end) - 1]),
        forall|k: int| blank_run_start(s, end) <= k < end ==> is_blank_byte(#[trigger] s[k]),
    decreases end,
{
    if 0 < end && is_blank_byte(s[end - 1]) {
        lemma_blank_run_start(s, end - 1);
    }
}

/// A whitespace character of one byte: U+0009 to U+000D, and U+0020.
pub open spec fn is_space_1(b: u8) -> bool {
    b == TAB || b == NEWLINE || b == VERTICAL_TAB || b == FORM_FEED || b == CARRIAGE_RETURN || b
        == SPACE
}

/// A whitespace character of two bytes: U+0085 and U+00A0.
pub open spec fn is_space_2(b0: u8, b1: u8) -> bool {
    b0 == 0xC2 && (b1 == 0x85 || b1 == 0xA0)
}

/// A whitespace character of three bytes: U+1680, U+2000 to U+200A, U+2028,
/// U+2029, U+202F, U+205F and U+3000.
pub open spec fn is_space_3(b0: u8, b1: u8, b2: u8) -> bool {
    ||| b0 == 0xE1 && b1 == 0x9A && b2 == 0x80
    ||| b0 == 0xE2 && b1 == 0x80 && (0x80 <= b2 <= 0x8A || b2 == 0xA8 || b2 == 0xA9 || b2 == 0xAF)
    ||| b0 == 0xE2 && b1 == 0x81 && b2 == 0x9F
    ||| b0 == 0xE3 && b1 == 0x80 && b2 == 0x80
}

/// The width in bytes of the whitespace character encoded at `at`; zero if
/// none begins there.
pub open spec fn space_width_at(s: Seq<u8>, at: int) -> int {
    if !(0 <= at < s.len()) {
        0
    } else if is_space_1(s[at]) {
        1
    } else if at + 1 < s.len() && is_space_2(s[at], s[at + 1]) {
        2
    } else if at + 2 < s.len() && is_space_3(s[at], s[at + 1], s[at + 2]) {
        3
    } else {
        0
    }
}

/// The width in bytes of the whitespace character encoded right before `end`
/// and not reaching below `lo`; zero if there is none.
pub open spec fn space_width_before(s: Seq<u8>, lo: int, end: int) -> int {
    if !(0 <= lo < end <= s.len()) {
        0
    } else if is_space_1(s[end - 1]) {
        1
    } else if lo <= end - 2 && is_space_2(s[end - 2], s[end - 1]) {
        2
    } else if lo <= end - 3 && is_space_3(s[end - 3], s[end - 2], s[end - 1]) {
        3
    } else {
        0
    }
}

/// The offset at which the run of whitespace characters that begins at `at`
/// ends.
pub open spec fn leading_space(s: Seq<u8>, at: int) -> int
    decreases s.len() - at,
{
    if space_width_at(s, at) > 0 {
        leading_space(s, at + space_width_at(s, at))
    } else {
        at
    }
}

/// The offset at which the run of whitespace characters that ends at `end`,
/// and does not reach below `lo`, begins.
pub open spec fn trailing_space(s: Seq<u8>, lo: int, end: int) -> int
    decreases end,
{
    if space_width_before(s, lo, end) > 0 {
        trailing_space(s, lo, end - space_width_before(s, lo, end))
    } else {
        end
    }
}

/// `s` without the whitespace characters at its start and at its end.
pub open spec fn trim(s: Seq<u8>) -> Seq<u8> {
    let from = leading_space(s, 0);
    s.subrange(from, trailing_space(s, from, s.len() as int))
}

/// `s` without the whitespace characters at its end.
pub open spec fn trim_end(s: Seq<u8>) -> Seq<u8> {
    s.subrange(0, trailing_space(s, 0, s.len() as int))
}

/// The whitespace characters at the start of `s`.
pub open spec fn indent_of(s: Seq<u8>) -> Seq<u8> {
    s.subrange(0, leading_space(s, 0))
}

/// `s` holds nothing but whitespace characters.
pub open spec fn is_blank(s: Seq<u8>) -> bool {
    trim(s).len() == 0
}

/// The offset at which the run of commas that ends right before `end` begins.
pub open spec fn comma_run_start(s: Seq<u8>, end: int) -> int
    decreases end,
{
    if 0 < end <= s.len() && s[end - 1] == COMMA {
        comma_run_start(s, end - 1)
    } else {
        end
    }
}

/// `s` without the commas at its end.
pub open spec fn strip_trailing_commas(s: Seq<u8>) -> Seq<u8> {
    s.subrange(0, comma_run_start(s, s.len() as int))
}

/// A byte that may belong to the encoding of a whitespace character: one of
/// the ASCII whitespace characters, or a byte of a longer encoding.
pub open spec fn is_space_byte(b: u8) -> bool {
    (TAB <= b <= CARRIAGE_RETURN) || b == SPACE || b >= 0x80
}

/// A leading run of whitespace characters is made of space bytes.
pub proof fn lemma_leading_space_bytes(s: Seq<u8>, at: int)
    requires
        0 <= at <= s.len(),
    ensures
        at <= leading_space(s, at) <= s.len(),
        forall|k: int| at <= k < leading_space(s, at) ==> is_space_byte(#[trigger] s[k]),
    decreases s.len() - at,
{
    if space_width_at(s, at) > 0 {
        lemma_leading_space_bytes(s, at + space_width_at(s, at));
    }
}

/// A trailing run of whitespace characters is made of space bytes.
pub proof fn lemma_trailing_space_bytes(s: Seq<u8>, lo: int, end: int)
    requires
        0 <= lo <= end <= s.len(),
    ensures
        lo <= trailing_space(s, lo, end) <= end,
        forall|k: int| trailing_space(s, lo, end) <= k < end ==> is_space_byte(#[trigger] s[k]),
    decreases end,
{
    if space_width_before(s, lo, end) > 0 {
        lemma_trailing_space_bytes(s, lo, end - space_width_before(s, lo, end));
    }
}

/// Trimming takes nothing from an occurrence that neither begins nor ends
/// with a space byte.
pub proof fn lemma_trim_keeps_occurrence(line: Seq<u8>, needle: Seq<u8>, at: int)
    requires
        occurs_at(line, needle, at),
        needle.len() > 0,
        !is_space_byte(needle[0]),
        !is_space_byte(needle.last()),
    ensures
        contains(trim(line), needle),
{
    let from = leading_space(line, 0);
    lemma_leading_space_bytes(line, 0);
    let to = trailing_space(line, from, line.len() as int);
    lemma_trailing_space_bytes(line, from, line.len() as int);
    lemma_occurrence_bytes(line, needle, at, 0);
    lemma_occurrence_bytes(line, needle, at, needle.len() - 1);
    assert(from <= at) by {
        if at < from {
            assert(is_space_byte(line[at]));
        }
    }
    assert(at + needle.len() <= to) by {
        if to < at + needle.len() {
            assert(is_space_byte(line[at + needle.len() - 1]));
        }
    }
    lemma_occurs_inside(line, from, to, needle, at);
    assert(occurs_at(trim(line), needle, at - from));
}

/// What occurs in the trimmed text occurs in the text.
pub proof fn lemma_trimmed_occurrence(text: Seq<u8>, needle: Seq<u8>)
    requires
        contains(trim(text), needle),
    ensures
        contains(text, needle),
{
    let from = leading_space(text, 0);
    lemma_leading_space_bytes(text, 0);
    let to = trailing_space(text, from, text.len() as int);
    lemma_trailing_space_bytes(text, from, text.len() as int);
    let at = choose|at: int| occurs_at(trim(text), needle, at);
    lemma_occurs_in_part(text, from, to, needle, at);
}

/// What occurs in a text without the whitespace at its end occurs in the
/// text.
pub proof fn lemma_end_trimmed_occurrence(text: Seq<u8>, needle: Seq<u8>)
    requires
        contains(trim_end(text), needle),
    ensures
        contains(text, needle),
{
    lemma_trailing_space_bytes(text, 0, text.len() as int);
    let to = trailing_space(text, 0, text.len() as int);
    let at = choose|at: int| occurs_at(trim_end(text), needle, at);
    lemma_occurs_in_part(text, 0, to, needle, at);
}

/// The offset at which the blank bytes that end `content` begin.
pub fn trim_trailing_whitespace_start(content: &[u8]) -> (at: usize)
    ensures
        at == blank_tail_start(content@),
        at <= content.len(),
{
    let mut at: usize = content.len();
    while at > 0 && (content[at - 1] == SPACE || content[at - 1] == TAB || content[at - 1]
        == NEWLINE || content[at - 1] == CARRIAGE_RETURN)
        invariant
            at <= content.len(),
            blank_tail_start(content@) == blank_run_start(content@, at as int),
        decreases at,
    {
        at -= 1;
    }
    at
}

/// The width of the whitespace character encoded at `at`.
pub fn space_width(bytes: &[u8], at: usize) -> (w: usize)
    ensures
        w == space_width_at(bytes@, at as int),
        w <= 3,
        at + w <= bytes.len() || w == 0,
{
    let len: usize = bytes.len();
    if at >= len {
        return 0;
    }
    let b0: u8 = bytes[at];
    if b0 == TAB || b0 == NEWLINE || b0 == VERTICAL_TAB || b0 == FORM_FEED || b0 == CARRIAGE_RETURN
        || b0 == SPACE {
        return 1;
    }
    if len - at < 2 {
        return 0;
    }
    let b1: u8 = bytes[at + 1];
    if b0 == 0xC2 && (b1 == 0x85 || b1 == 0xA0) {
        return 2;
    }
    if len - at < 3 {
        return 0;
    }
    let b2: u8 = bytes[at + 2];
    if (b0 == 0xE1 && b1 == 0x9A && b2 == 0x80) || (b0 == 0xE2 && b1 == 0x80 && ((0x80 <= b2 && b2
        <= 0x8A) || b2 == 0xA8 || b2 == 0xA9 || b2 == 0xAF)) || (b0 == 0xE2 && b1 == 0x81 && b2
        == 0x9F) || (b0 == 0xE3 && b1 == 0x80 && b2 == 0x80) {
        return 3;
    }
    0
}

/// The width of the whitespace character encoded right before `end`, within
/// `bytes[lo..end]`.
pub fn space_width_back(bytes: &[u8], lo: usize, end: usize) -> (w: usize)
    requires
        end <= bytes.len(),
    ensures
        w == space_width_before(bytes@, lo as int, end as int),
        w <= 3,
        lo + w <= end || w == 0,
{
    if lo >= end {
        return 0;
    }
    let b2: u8 = bytes[end - 1];
    if b2 == TAB || b2 == NEWLINE || b2 == VERTICAL_TAB || b2 == FORM_FEED || b2 == CARRIAGE_RETURN
        || b2 == SPACE {
        return 1;
    }
    if end - lo < 2 {
        return 0;
    }
    let b1: u8 = bytes[end - 2];
    if b1 == 0xC2 && (b2 == 0x85 || b2 == 0xA0) {
        return 2;
    }
    if end - lo < 3 {
        return 0;
    }
    let b0: u8 = bytes[end - 3];
    if (b0 == 0xE1 && b1 == 0x9A && b2 == 0x80) || (b0 == 0xE2 && b1 == 0x80 && ((0x80 <= b2 && b2
        <= 0x8A) || b2 == 0xA8 || b2 == 0xA9 || b2 == 0xAF)) || (b0 == 0xE2 && b1 == 0x81 && b2
        == 0x9F) || (b0 == 0xE3 && b1 == 0x80 && b2 == 0x80) {
        return 3;
    }
    0
}

/// The offset at which the whitespace characters that begin at `from` end.
pub fn leading_space_end(bytes: &[u8], from: usize) -> (at: usize)
    requires
        from <= bytes.len(),
    ensures
        at == leading_space(bytes@, from as int),
        from <= at <= bytes.len(),
{
    let mut at: usize = from;
    loop
        invariant
            from <= at <= bytes.len(),
            leading_space(bytes@, from as int) == leading_space(bytes@, at as int),
        decreases bytes.len() - at,
    {
        let w: usize = space_width(bytes, at);
        if w == 0 {
            return at;
        }
        at += w;
    }
}

/// The offset at which the whitespace characters that end at `end` begin,
/// within `bytes[lo..end]`.
pub fn trailing_space_start(bytes: &[u8], lo: usize, end: usize) -> (at: usize)
    requires
        lo <= end <= bytes.len(),
    ensures
        at == trailing_space(bytes@, lo as int, end as int),
        lo <= at <= end,
{
    let mut at: usize = end;
    loop
        invariant
            lo <= at <= end <= bytes.len(),
            trailing_space(bytes@, lo as int, end as int) == trailing_space(
                bytes@,
                lo as int,
                at as int,
            ),
        decreases at,
    {
        let w: usize = space_width_back(bytes, lo, at);
        if w == 0 {
            return at;
        }
        at -= w;
    }
}

/// `bytes` without the whitespace characters at its start and at its end.
pub fn trimmed(bytes: &[u8]) -> (r: &[u8])
    ensures
        r@ == trim(bytes@),
{
    let from: usize = leading_space_end(bytes, 0);
    let to: usize = trailing_space_start(bytes, from, bytes.len());
    slice_subrange(bytes, from, to)
}

/// `bytes` without the whitespace characters at its end.
pub fn trimmed_end(bytes: &[u8]) -> (r: &[u8])
    ensures
        r@ == trim_end(bytes@),
{
    let to: usize = trailing_space_start(bytes, 0, bytes.len());
    slice_subrange(bytes, 0, to)
}

/// The whitespace characters at the start of `bytes`.
pub fn indent(bytes: &[u8]) -> (r: &[u8])
    ensures
        r@ == indent_of(bytes@),
{
    let to: usize = leading_space_end(bytes, 0);
    slice_subrange(bytes, 0, to)
}

/// Whether `bytes` holds nothing but whitespace characters.
pub fn blank(bytes: &[u8]) -> (r: bool)
    ensures
        r == is_blank(bytes@),
{
    trimmed(bytes).len() == 0
}

/// `bytes` without the commas at its end.
pub fn without_trailing_commas(bytes: &[u8]) -> (r: &[u8])
    ensures
        r@ == strip_trailing_commas(bytes@),
{
    let mut to: usize = bytes.len();
    while to > 0 && bytes[to - 1] == COMMA
        invariant
            to <= bytes.len(),
            comma_run_start(bytes@, bytes.len() as int) == comma_run_start(bytes@, to as int),
        decreases to,
    {
        to -= 1;
    }
    slice_subrange(bytes, 0, to)
}

/// Whitespace holds no quote.
pub proof fn lemma_blank_has_no_quote(text: Seq<u8>)
    requires
        is_blank(text),
    ensures
        forall|k: int| 0 <= k < text.len() ==> text[k] != QUOTE,
{
    assert forall|k: int| 0 <= k < text.len() implies text[k] != QUOTE by {
        if text[k] == QUOTE {
            let needle = seq![QUOTE];
            assert(text.subrange(k, k + 1) =~= needle);
            assert(occurs_at(text, needle, k));
            lemma_trim_keeps_occurrence(text, needle, k);
            let at = choose|at: int| occurs_at(trim(text), needle, at);
        }
    }
}

} // verus!
