//! Lines: the editor removes and rebuilds the interior of a block line by
//! line. A line ends at a line feed; a carriage return in front of it belongs
//! to the line.

use crate::bytes::{
    append, contains, lemma_occurrence_bytes, lemma_occurs_in_part, lemma_occurs_inside, occurs_at,
    NEWLINE,
};
use vstd::prelude::*;
use vstd::slice::slice_subrange;

verus! {

/// The lines of `s` from `at` on, where the line that `at` lies in began at
/// `start`.
pub open spec fn lines_from(s: Seq<u8>, start: int, at: int) -> Seq<Seq<u8>>
    decreases s.len() - at,
{
    if !(0 <= at < s.len()) {
        seq![s.subrange(start, s.len() as int)]
    } else if s[at] == NEWLINE {
        seq![s.subrange(start, at)] + lines_from(s, at + 1, at + 1)
    } else {
        lines_from(s, start, at + 1)
    }
}

/// The lines of `s`: the stretches between its line feeds. There is always at
/// least one line, and a line feed at the end is followed by an empty line.
pub open spec fn split_lines(s: Seq<u8>) -> Seq<Seq<u8>> {
    lines_from(s, 0, 0)
}

/// The lines joined again, one line feed between each two.
pub open spec fn join_lines(lines: Seq<Seq<u8>>) -> Seq<u8>
    decreases lines.len(),
{
    if lines.len() == 0 {
        seq![]
    } else if lines.len() == 1 {
        lines[0]
    } else {
        join_lines(lines.drop_last()) + seq![NEWLINE] + lines.last()
    }
}

/// The byte strings that a list of slices holds, in order.
pub open spec fn line_views(lines: Seq<&[u8]>) -> Seq<Seq<u8>> {
    lines.map_values(|line: &[u8]| line@)
}

/// Joining the lines of a text gives the text back; a text has at least one
/// line.
pub proof fn lemma_join_split(s: Seq<u8>)
    ensures
        join_lines(split_lines(s)) == s,
        split_lines(s).len() >= 1,
{
    lemma_join_lines_from(s, 0, 0);
    assert(s.subrange(0, s.len() as int) == s);
}

/// Joining the lines from `at` on gives the text from `start` on.
proof fn lemma_join_lines_from(s: Seq<u8>, start: int, at: int)
    requires
        0 <= start <= at <= s.len(),
        forall|k: int| start <= k < at ==> s[k] != NEWLINE,
    ensures
        join_lines(lines_from(s, start, at)) == s.subrange(start, s.len() as int),
        lines_from(s, start, at).len() >= 1,
    decreases s.len() - at,
{
    if at < s.len() {
        if s[at] == NEWLINE {
            lemma_join_lines_from(s, at + 1, at + 1);
            lemma_join_prepend(s.subrange(start, at), lines_from(s, at + 1, at + 1));
            assert(s.subrange(start, at) + seq![NEWLINE] + s.subrange(at + 1, s.len() as int)
                == s.subrange(start, s.len() as int));
        } else {
            lemma_join_lines_from(s, start, at + 1);
        }
    }
}

/// Joining a line in front of one or more lines puts it and a line feed in
/// front of their text.
pub proof fn lemma_join_prepend(first: Seq<u8>, rest: Seq<Seq<u8>>)
    requires
        rest.len() >= 1,
    ensures
        join_lines(seq![first] + rest) == first + seq![NEWLINE] + join_lines(rest),
    decreases rest.len(),
{
    let all = seq![first] + rest;
    assert(all.drop_last() == seq![first] + rest.drop_last());
    assert(all.last() == rest.last());
    if rest.len() == 1 {
        assert(all.drop_last() == seq![first]);
        assert(join_lines(all.drop_last()) == first);
    } else {
        lemma_join_prepend(first, rest.drop_last());
        assert(first + seq![NEWLINE] + join_lines(rest.drop_last()) + seq![NEWLINE] + rest.last()
            == first + seq![NEWLINE] + (join_lines(rest.drop_last()) + seq![NEWLINE]
            + rest.last()));
    }
}

/// What occurs in joined lines and holds no line feed occurs in one of the
/// lines.
pub proof fn lemma_join_occurrence(lines: Seq<Seq<u8>>, needle: Seq<u8>, at: int)
    requires
        occurs_at(join_lines(lines), needle, at),
        needle.len() > 0,
        forall|k: int| 0 <= k < needle.len() ==> needle[k] != NEWLINE,
    ensures
        exists|i: int| 0 <= i < lines.len() && contains(#[trigger] lines[i], needle),
    decreases lines.len(),
{
    if lines.len() == 1 {
        assert(contains(lines[0], needle));
    } else if lines.len() >= 2 {
        let front = join_lines(lines.drop_last());
        let joined = join_lines(lines);
        let back = lines.last();
        assert(joined == front + seq![NEWLINE] + back);
        if at + needle.len() <= front.len() {
            lemma_occurs_inside(joined, 0, front.len() as int, needle, at);
            assert(joined.subrange(0, front.len() as int) =~= front);
            lemma_join_occurrence(lines.drop_last(), needle, at);
            let i = choose|i: int|
                0 <= i < lines.drop_last().len() && contains(
                    #[trigger] lines.drop_last()[i],
                    needle,
                );
            assert(lines[i] == lines.drop_last()[i]);
        } else if at > front.len() {
            lemma_occurs_inside(joined, (front.len() + 1) as int, joined.len() as int, needle, at);
            assert(joined.subrange((front.len() + 1) as int, joined.len() as int) =~= back);
            assert(contains(lines[lines.len() - 1], needle));
        } else {
            lemma_occurrence_bytes(joined, needle, at, front.len() - at);
            assert(joined[front.len() as int] == NEWLINE);
        }
    }
}

/// Every line of a text is a part of the text.
pub proof fn lemma_line_is_part(s: Seq<u8>, i: int)
    requires
        0 <= i < split_lines(s).len(),
    ensures
        exists|from: int, to: int|
            0 <= from <= to <= s.len() && split_lines(s)[i] == #[trigger] s.subrange(from, to),
{
    lemma_line_from_is_part(s, 0, 0, i);
}

proof fn lemma_line_from_is_part(s: Seq<u8>, start: int, at: int, i: int)
    requires
        0 <= start <= at <= s.len(),
        0 <= i < lines_from(s, start, at).len(),
    ensures
        exists|from: int, to: int|
            0 <= from <= to <= s.len() && lines_from(s, start, at)[i] == #[trigger] s.subrange(
                from,
                to,
            ),
    decreases s.len() - at,
{
    if at >= s.len() {
        assert(lines_from(s, start, at)[i] == s.subrange(start, s.len() as int));
    } else if s[at] == NEWLINE {
        if i == 0 {
            assert(lines_from(s, start, at)[i] == s.subrange(start, at));
        } else {
            lemma_line_from_is_part(s, at + 1, at + 1, i - 1);
            assert(lines_from(s, start, at)[i] == lines_from(s, at + 1, at + 1)[i - 1]);
        }
    } else {
        lemma_line_from_is_part(s, start, at + 1, i);
    }
}

/// What occurs in a line of a text occurs in the text.
pub proof fn lemma_line_occurrence(s: Seq<u8>, i: int, needle: Seq<u8>)
    requires
        0 <= i < split_lines(s).len(),
        contains(split_lines(s)[i], needle),
    ensures
        contains(s, needle),
{
    lemma_line_is_part(s, i);
    let (from, to) = choose|from: int, to: int|
        0 <= from <= to <= s.len() && split_lines(s)[i] == #[trigger] s.subrange(from, to);
    let at = choose|at: int| occurs_at(split_lines(s)[i], needle, at);
    lemma_occurs_in_part(s, from, to, needle, at);
}

/// What occurs in a text and holds no line feed occurs in one of its lines.
pub proof fn lemma_occurrence_in_line(s: Seq<u8>, needle: Seq<u8>)
    requires
        contains(s, needle),
        needle.len() > 0,
        forall|k: int| 0 <= k < needle.len() ==> needle[k] != NEWLINE,
    ensures
        exists|i: int|
            0 <= i < split_lines(s).len() && contains(#[trigger] split_lines(s)[i], needle),
{
    lemma_join_split(s);
    let at = choose|at: int| occurs_at(s, needle, at);
    lemma_join_occurrence(split_lines(s), needle, at);
}

/// Splits `bytes` into its lines.
pub fn split<'a>(bytes: &'a [u8]) -> (lines: Vec<&'a [u8]>)
    ensures
        line_views(lines@) == split_lines(bytes@),
{
    let mut lines: Vec<&'a [u8]> = Vec::new();
    let mut start: usize = 0;
    let mut at: usize = 0;
    while at < bytes.len()
        invariant
            start <= at <= bytes.len(),
            split_lines(bytes@) == line_views(lines@) + lines_from(bytes@, start as int, at as int),
        decreases bytes.len() - at,
    {
        if bytes[at] == NEWLINE {
            let ghost before = lines@;
            lines.push(slice_subrange(bytes, start, at));
            assert(line_views(lines@) == line_views(before) + seq![
                bytes@.subrange(start as int, at as int),
            ]);
            start = at + 1;
        }
        at += 1;
    }
    let ghost before = lines@;
    lines.push(slice_subrange(bytes, start, bytes.len()));
    assert(line_views(lines@) == line_views(before) + seq![
        bytes@.subrange(start as int, bytes.len() as int),
    ]);
    lines
}

/// Joins lines with one line feed between each two.
pub fn join(lines: &Vec<&[u8]>) -> (text: Vec<u8>)
    ensures
        text@ == join_lines(line_views(lines@)),
{
    let mut text: Vec<u8> = Vec::new();
    let mut i: usize = 0;
    while i < lines.len()
        invariant
            i <= lines.len(),
            text@ == join_lines(line_views(lines@).subrange(0, i as int)),
        decreases lines.len() - i,
    {
        let ghost done = line_views(lines@).subrange(0, i as int);
        let ghost next = line_views(lines@).subrange(0, i + 1);
        assert(next.drop_last() == done);
        assert(next.last() == lines[i as int]@);
        if i > 0 {
            text.push(NEWLINE);
        }
        append(&mut text, lines[i]);
        i += 1;
    }
    assert(line_views(lines@).subrange(0, lines.len() as int) == line_views(lines@));
    text
}

} // verus!
