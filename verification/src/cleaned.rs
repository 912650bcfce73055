//! What a delete makes of the lines that stay: their commas are put right,
//! and nothing else of their text is touched.

use crate::bytes::{
    contains, lemma_occurrence_bytes, lemma_occurs_in_part, lemma_occurs_inside, occurs_at, COMMA,
};
use crate::remove::{cleaned_line, line_core, rebuilt_upto, without_blank_tail};
use crate::space::{
    comma_run_start, indent_of, is_blank, is_space_byte, lemma_trailing_space_bytes,
    lemma_trim_keeps_occurrence, strip_trailing_commas, trim, trim_end,
};
use vstd::prelude::*;

verus! {

/// The lines without their blank tail end with a line that is not blank.
pub proof fn lemma_without_blank_tail(lines: Seq<Seq<u8>>)
    ensures
        without_blank_tail(lines).len() > 0 ==> !is_blank(without_blank_tail(lines).last()),
    decreases lines.len(),
{
    if lines.len() > 0 && is_blank(lines.last()) {
        lemma_without_blank_tail(lines.drop_last());
    }
}

/// Where a run of commas begins, no comma stands in front of it.
pub proof fn lemma_comma_run_start(s: Seq<u8>, end: int)
    requires
        0 <= end <= s.len(),
    ensures
        0 <= comma_run_start(s, end) <= end,
        comma_run_start(s, end) > 0 ==> s[comma_run_start(s, end) - 1] != COMMA,
    decreases end,
{
    if 0 < end && s[end - 1] == COMMA {
        lemma_comma_run_start(s, end - 1);
    }
}

/// A run of commas holds commas only.
pub proof fn lemma_comma_run_end(s: Seq<u8>, end: int)
    requires
        0 <= end <= s.len(),
    ensures
        forall|k: int| comma_run_start(s, end) <= k < end ==> s[k] == COMMA,
    decreases end,
{
    if 0 < end && s[end - 1] == COMMA {
        lemma_comma_run_end(s, end - 1);
    }
}

/// The text of a line that stays ends with a comma only if that comma stood
/// in front of whitespace and further commas.
pub proof fn lemma_core_comma(line: Seq<u8>)
    ensures
        line_core(line).len() > 0 && line_core(line).last() == COMMA ==> line_core(line).len()
            < strip_trailing_commas(trim(line)).len(),
{
    let text = trim(line);
    let stripped = strip_trailing_commas(text);
    lemma_comma_run_start(text, text.len() as int);
    lemma_trailing_space_bytes(stripped, 0, stripped.len() as int);
    if line_core(line).len() == stripped.len() {
        assert(line_core(line) =~= stripped);
    }
}

/// The first lines of a rebuilt interior are a prefix of more of its lines.
pub proof fn lemma_rebuilt_prefix(lines: Seq<Seq<u8>>, ending: Seq<u8>, fewer: int, more: int)
    requires
        0 <= fewer <= more,
    ensures
        rebuilt_upto(lines, ending, fewer).len() <= rebuilt_upto(lines, ending, more).len(),
        rebuilt_upto(lines, ending, more).subrange(
            0,
            rebuilt_upto(lines, ending, fewer).len() as int,
        ) == rebuilt_upto(lines, ending, fewer),
    decreases more,
{
    let short = rebuilt_upto(lines, ending, fewer);
    if fewer < more {
        lemma_rebuilt_prefix(lines, ending, fewer, more - 1);
        let middle = rebuilt_upto(lines, ending, more - 1);
        let long = rebuilt_upto(lines, ending, more);
        assert(long.subrange(0, short.len() as int) =~= middle.subrange(0, short.len() as int));
    } else {
        assert(short.subrange(0, short.len() as int) =~= short);
    }
}

/// Every line of a rebuilt interior stands in it, cleaned and with the line
/// ending behind it; the lines stand one behind the other.
pub proof fn lemma_rebuilt_line(lines: Seq<Seq<u8>>, ending: Seq<u8>, index: int)
    requires
        0 <= index < lines.len(),
    ensures
        ({
            let all = rebuilt_upto(lines, ending, lines.len() as int);
            let from = rebuilt_upto(lines, ending, index).len() as int;
            let piece = cleaned_line(lines[index], index + 1 == lines.len()) + ending;
            &&& from + piece.len() <= all.len()
            &&& all.subrange(from, from + piece.len()) == piece
            &&& index + 1 == lines.len() ==> from + piece.len() == all.len()
        }),
{
    let all = rebuilt_upto(lines, ending, lines.len() as int);
    let before = rebuilt_upto(lines, ending, index);
    let with = rebuilt_upto(lines, ending, index + 1);
    let piece = cleaned_line(lines[index], index + 1 == lines.len()) + ending;
    lemma_rebuilt_prefix(lines, ending, index + 1, lines.len() as int);
    assert(with =~= before + piece);
    assert(all.subrange(before.len() as int, with.len() as int) =~= all.subrange(
        0,
        with.len() as int,
    ).subrange(before.len() as int, with.len() as int));
    assert(with.subrange(before.len() as int, with.len() as int) =~= piece);
}

/// A line that is not blank is not among the blank lines that are taken off
/// the end.
pub proof fn lemma_line_outlasts_blank_tail(lines: Seq<Seq<u8>>, i: int)
    requires
        0 <= i < lines.len(),
        !is_blank(lines[i]),
    ensures
        i < without_blank_tail(lines).len(),
        without_blank_tail(lines)[i] == lines[i],
        without_blank_tail(lines).len() <= lines.len(),
    decreases lines.len(),
{
    if is_blank(lines.last()) {
        lemma_line_outlasts_blank_tail(lines.drop_last(), i);
    }
}

/// Cleaning a line takes nothing from an occurrence that does not begin
/// with a space byte and ends with neither a space byte nor a comma.
pub proof fn lemma_cleaned_line_keeps_occurrence(line: Seq<u8>, needle: Seq<u8>, last: bool)
    requires
        contains(line, needle),
        needle.len() > 0,
        !is_space_byte(needle[0]),
        !is_space_byte(needle.last()),
        needle.last() != COMMA,
    ensures
        contains(cleaned_line(line, last), needle),
        !is_blank(line),
{
    let at = choose|at: int| occurs_at(line, needle, at);
    lemma_trim_keeps_occurrence(line, needle, at);
    let text = trim(line);
    let inside = choose|inside: int| occurs_at(text, needle, inside);
    let stripped = strip_trailing_commas(text);
    lemma_comma_run_start(text, text.len() as int);
    lemma_comma_run_end(text, text.len() as int);
    lemma_occurrence_bytes(text, needle, inside, needle.len() - 1);
    assert(inside + needle.len() <= stripped.len()) by {
        if stripped.len() < inside + needle.len() {
            assert(text[inside + needle.len() - 1] == COMMA);
        }
    }
    lemma_occurs_inside(text, 0, stripped.len() as int, needle, inside);
    let core = trim_end(stripped);
    lemma_trailing_space_bytes(stripped, 0, stripped.len() as int);
    lemma_occurrence_bytes(stripped, needle, inside, needle.len() - 1);
    assert(inside + needle.len() <= core.len()) by {
        if core.len() < inside + needle.len() {
            assert(is_space_byte(stripped[inside + needle.len() - 1]));
        }
    }
    lemma_occurs_inside(stripped, 0, core.len() as int, needle, inside);
    assert(!is_blank(line));
    let cleaned = cleaned_line(line, last);
    let indent = indent_of(line);
    let from = indent.len() as int;
    assert(core == line_core(line));
    assert(cleaned.subrange(from, from + core.len()) =~= core);
    lemma_occurs_in_part(cleaned, from, from + core.len(), needle, inside);
}

} // verus!
