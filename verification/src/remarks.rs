//! Line comments that hold the entry prefix: where they stand in a text, and
//! that a replacement by nothing leaves none of them behind.

use crate::bytes::{
    contains, lemma_occurrence_bytes, lemma_occurs_inside, occurs_at, COMMA, NEWLINE, SLASH,
};
use crate::emptied::{is_space_run, lemma_leading_is_run, lemma_run_is_skipped, lemma_run_moves};
use crate::entry::{portal_prefix, quoted_prefix};
use crate::lines::{join_lines, lemma_line_occurrence, lines_from, split_lines};
use crate::quoted::lemma_portal_prefix_plain;
use crate::replace::{comment_mark, is_entry_line};
use crate::space::{
    is_space_byte, leading_space, lemma_trailing_space_bytes, lemma_trimmed_occurrence,
    space_width_at, trailing_space, trim, trim_end,
};
use vstd::prelude::*;

verus! {

/// A line comment that holds the entry prefix stands in `text`: its line
/// begins at `line`, only whitespace stands between the start of the line
/// and the two slashes at `mark`, and the entry prefix stands at `at` on
/// the same line.
pub open spec fn is_prefixed_comment(text: Seq<u8>, line: int, mark: int, at: int) -> bool {
    &&& 0 <= line <= mark
    &&& mark + 2 <= at
    &&& at + 12 <= text.len()
    &&& line == 0 || text[line - 1] == NEWLINE
    &&& is_space_run(text, line, mark)
    &&& text[mark] == SLASH
    &&& text[mark + 1] == SLASH
    &&& occurs_at(text, portal_prefix(), at)
    &&& forall|k: int| line <= k < at + 12 ==> text[k] != NEWLINE
}

/// A text of one line, in which a line comment with the entry prefix stands,
/// is a line that holds a prefixed key.
pub proof fn lemma_comment_line_is_entry_line(text: Seq<u8>, mark: int, at: int)
    requires
        is_prefixed_comment(text, 0, mark, at),
    ensures
        is_entry_line(text),
{
    lemma_portal_prefix_plain();
    reveal_strlit("portal_frag_");
    lemma_run_is_skipped(text, 0, mark);
    assert(space_width_at(text, mark) == 0);
    assert(leading_space(text, 0) == mark);
    lemma_trailing_space_bytes(text, mark, text.len() as int);
    let end = trailing_space(text, mark, text.len() as int);
    lemma_occurrence_bytes(text, portal_prefix(), at, 11);
    assert(at + 12 <= end) by {
        if end < at + 12 {
            assert(is_space_byte(text[at + 11]));
        }
    }
    let inner = trim(text);
    assert(inner == text.subrange(mark, end));
    assert(inner.subrange(0, 2) =~= comment_mark());
    lemma_occurs_inside(text, mark, end, portal_prefix(), at);
}

/// Every line of a text is the part of the text between two line feeds, or
/// between a line feed and an end of the text, and holds no line feed.
pub proof fn lemma_line_stands(s: Seq<u8>, i: int)
    requires
        0 <= i < split_lines(s).len(),
    ensures
        exists|from: int, to: int|
            0 <= from <= to <= s.len() && (from == 0 || s[from - 1] == NEWLINE) && (forall|k: int|
                from <= k < to ==> s[k] != NEWLINE) && split_lines(s)[i] == #[trigger] s.subrange(
                from,
                to,
            ),
{
    lemma_line_from_stands(s, 0, 0, i);
}

proof fn lemma_line_from_stands(s: Seq<u8>, start: int, at: int, i: int)
    requires
        0 <= start <= at <= s.len(),
        start == 0 || s[start - 1] == NEWLINE,
        forall|k: int| start <= k < at ==> s[k] != NEWLINE,
        0 <= i < lines_from(s, start, at).len(),
    ensures
        exists|from: int, to: int|
            0 <= from <= to <= s.len() && (from == 0 || s[from - 1] == NEWLINE) && (forall|k: int|
                from <= k < to ==> s[k] != NEWLINE) && lines_from(s, start, at)[i]
                == #[trigger] s.subrange(from, to),
    decreases s.len() - at,
{
    if at >= s.len() {
        assert(lines_from(s, start, at)[i] == s.subrange(start, s.len() as int));
    } else if s[at] == NEWLINE {
        if i == 0 {
            assert(lines_from(s, start, at)[i] == s.subrange(start, at));
        } else {
            lemma_line_from_stands(s, at + 1, at + 1, i - 1);
            assert(lines_from(s, start, at)[i] == lines_from(s, at + 1, at + 1)[i - 1]);
        }
    } else {
        lemma_line_from_stands(s, start, at + 1, i);
    }
}

/// A line that holds a prefixed key, but no quote in front of the prefix, is
/// a line comment with the entry prefix.
pub proof fn lemma_entry_line_is_comment(s: Seq<u8>, i: int)
    requires
        0 <= i < split_lines(s).len(),
        is_entry_line(split_lines(s)[i]),
        !contains(s, quoted_prefix()),
    ensures
        exists|line: int, mark: int, at: int| is_prefixed_comment(s, line, mark, at),
{
    lemma_line_stands(s, i);
    let (from, to) = choose|from: int, to: int|
        0 <= from <= to <= s.len() && (from == 0 || s[from - 1] == NEWLINE) && (forall|k: int|
            from <= k < to ==> s[k] != NEWLINE) && split_lines(s)[i] == #[trigger] s.subrange(
            from,
            to,
        );
    let text = split_lines(s)[i];
    let inner = trim(text);
    if contains(inner, quoted_prefix()) {
        lemma_trimmed_occurrence(text, quoted_prefix());
        lemma_line_occurrence(s, i, quoted_prefix());
    }
    lemma_leading_is_run(text, 0);
    let lead = leading_space(text, 0);
    lemma_trailing_space_bytes(text, lead, text.len() as int);
    let end = trailing_space(text, lead, text.len() as int);
    assert(text.subrange(0, lead) =~= s.subrange(from, from + lead));
    lemma_run_moves(text, 0, s, from, lead, 0);
    let inside = choose|inside: int| occurs_at(inner, portal_prefix(), inside);
    lemma_portal_prefix_plain();
    reveal_strlit("portal_frag_");
    lemma_occurrence_bytes(inner, comment_mark(), 0, 0);
    lemma_occurrence_bytes(inner, comment_mark(), 0, 1);
    lemma_occurrence_bytes(inner, portal_prefix(), inside, 0);
    assert(inside >= 2) by {
        if inside < 2 {
            assert(inner[inside] == SLASH);
        }
    }
    let mark = from + lead;
    let at = mark + inside;
    assert(s[mark] == inner[0]);
    assert(s[mark + 1] == inner[1]);
    assert(s.subrange(at, at + 12) =~= inner.subrange(inside, inside + 12));
    assert(is_prefixed_comment(s, from, mark, at));
}

/// The text holds no line feed.
pub open spec fn is_one_line(text: Seq<u8>) -> bool {
    forall|k: int| 0 <= k < text.len() ==> text[k] != NEWLINE
}

/// Where a line comment with the entry prefix stands in joined lines, one
/// of the lines holds a prefixed key.
pub proof fn lemma_comment_in_joined(lines: Seq<Seq<u8>>, line: int, mark: int, at: int)
    requires
        is_prefixed_comment(join_lines(lines), line, mark, at),
        forall|i: int| 0 <= i < lines.len() ==> is_one_line(#[trigger] lines[i]),
    ensures
        exists|i: int| 0 <= i < lines.len() && is_entry_line(#[trigger] lines[i]),
    decreases lines.len(),
{
    let joined = join_lines(lines);
    lemma_portal_prefix_plain();
    if lines.len() == 1 {
        assert(is_one_line(lines[0]));
        if line > 0 {
            assert(lines[0][line - 1] != NEWLINE);
        }
        lemma_comment_line_is_entry_line(lines[0], mark, at);
        assert(is_entry_line(lines[0]));
    } else if lines.len() >= 2 {
        let front = join_lines(lines.drop_last());
        let back = lines.last();
        let cut = front.len() as int;
        assert(joined == front + seq![NEWLINE] + back);
        assert(joined[cut] == NEWLINE);
        if at + 12 <= cut {
            assert(joined.subrange(0, cut) =~= front);
            assert(joined.subrange(line, mark) =~= front.subrange(line, mark));
            lemma_run_moves(joined, line, front, line, mark - line, 0);
            lemma_occurs_inside(joined, 0, cut, portal_prefix(), at);
            assert(is_prefixed_comment(front, line, mark, at));
            assert forall|i: int| 0 <= i < lines.drop_last().len() implies is_one_line(
                #[trigger] lines.drop_last()[i],
            ) by {
                assert(lines.drop_last()[i] == lines[i]);
            }
            lemma_comment_in_joined(lines.drop_last(), line, mark, at);
            let i = choose|i: int|
                0 <= i < lines.drop_last().len() && is_entry_line(
                    #[trigger] lines.drop_last()[i],
                );
            assert(lines[i] == lines.drop_last()[i]);
        } else {
            let shift = cut + 1;
            assert(line >= shift);
            assert(is_one_line(lines[lines.len() - 1]));
            if line > shift {
                assert(joined[line - 1] == back[line - 1 - shift]);
                assert(back[line - 1 - shift] != NEWLINE);
            }
            assert(joined.subrange(shift, joined.len() as int) =~= back);
            assert(joined.subrange(line, mark) =~= back.subrange(0, mark - shift));
            lemma_run_moves(joined, line, back, 0, mark - line, 0);
            lemma_occurs_inside(joined, shift, joined.len() as int, portal_prefix(), at);
            assert(back[mark - shift] == joined[mark]);
            assert(back[mark - shift + 1] == joined[mark + 1]);
            assert forall|k: int| 0 <= k < at - shift + 12 implies back[k] != NEWLINE by {
                assert(back[k] == joined[k + shift]);
            }
            assert(is_prefixed_comment(back, 0, mark - shift, at - shift));
            lemma_comment_line_is_entry_line(back, mark - shift, at - shift);
            assert(is_entry_line(lines[lines.len() - 1]));
        }
    }
}

/// Where a line comment with the entry prefix stands in a text that was
/// trimmed at its end and closed, it stands in the text that was trimmed.
pub proof fn lemma_comment_in_trimmed(
    whole: Seq<u8>,
    closed: Seq<u8>,
    line: int,
    mark: int,
    at: int,
)
    requires
        trim_end(whole).len() <= closed.len(),
        closed.subrange(0, trim_end(whole).len() as int) == trim_end(whole),
        forall|k: int|
            trim_end(whole).len() <= k < closed.len() ==> closed[k] == COMMA || is_space_byte(
                #[trigger] closed[k],
            ),
        is_prefixed_comment(closed, line, mark, at),
    ensures
        is_prefixed_comment(whole, line, mark, at),
{
    lemma_trailing_space_bytes(whole, 0, whole.len() as int);
    let kept = trim_end(whole);
    let len = kept.len() as int;
    lemma_portal_prefix_plain();
    reveal_strlit("portal_frag_");
    lemma_occurrence_bytes(closed, portal_prefix(), at, 11);
    assert(at + 12 <= len) by {
        if len < at + 12 {
            assert(closed[at + 11] == COMMA || is_space_byte(closed[at + 11]));
        }
    }
    assert forall|k: int| 0 <= k < len implies closed[k] == whole[k] by {
        assert(closed.subrange(0, len)[k] == closed[k]);
        assert(kept[k] == whole[k]);
    }
    assert(closed.subrange(line, mark) =~= whole.subrange(line, mark));
    lemma_run_moves(closed, line, whole, line, mark - line, 0);
    assert(closed.subrange(at, at + 12) =~= whole.subrange(at, at + 12));
    assert(occurs_at(whole, portal_prefix(), at));
    assert forall|k: int| line <= k < at + 12 implies whole[k] != NEWLINE by {
        assert(closed[k] == whole[k]);
    }
    if line > 0 {
        assert(closed[line - 1] == whole[line - 1]);
    }
}

} // verus!
